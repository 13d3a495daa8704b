use vstd::prelude::*;
use crate::piece::{PieceKind, Tetromino, spawn_piece_of, turned, moved_to, has_cells, lemma_cells_are_occupied, lemma_moved_has_cells, lemma_turn_value, lemma_spawn_has_cells};
use crate::bag::{PieceBag, all_kinds, refilled};
use crate::board::{Cell, rows_have_width, no_full_row, count_full, cleared, placed, blank_rows, rows_of, remove_full_rows, lemma_cleared_shape, filled_upto, lemma_placed_full_rows, empty_row, blank_row};

verus! {

/// Upper bound on the board's width and height, so that piece coordinates
/// near the board, with a few cells of margin, fit in `i32`.
pub const MAX_SIDE: usize = 0x3fff_0000;

/// How long, in milliseconds, a piece resting on something may still slide
/// before a tick locks it.
pub const LOCK_DELAY_MS: u64 = 500;

/// Something that happened in the game, for the front end to react to
/// (sounds, effects). The events pile up until the front end takes them.
#[derive(Clone, Copy, PartialEq, Eq, Structural, Debug)]
pub enum GameEvent {
    Move,
    Rotate,
    Lock,
    /// Lines cleared at once, and the combo count after that clear.
    Clear(u32, u32),
    GameOver,
    Hold,
    LevelUp,
    /// A finesse fault: 1 is a second rotation in the same direction of an S
    /// or Z piece; 2 is an inefficient move.
    FinesseFault(u8),
}

/// The whole game as a mathematical value.
#[verifier::ext_equal]
pub struct GameState {
    pub board: Seq<Seq<Cell>>,
    pub width: usize,
    pub height: usize,
    pub current: Tetromino,
    pub next: Tetromino,
    pub hold: Option<Tetromino>,
    pub can_hold: bool,
    pub score: u32,
    pub lines: u32,
    pub level: u32,
    pub game_over: bool,
    pub paused: bool,
    pub tick_count: u64,
    pub combo: u32,
    pub lock_delay_start: Option<u64>,
    pub events: Seq<GameEvent>,
    pub last_rotation_was_cw: Option<bool>,
    pub consecutive_rotations: u32,
    pub finesse_faults: u32,
    pub bag: Seq<PieceKind>,
}

/// Points for clearing `n` lines at once, before the level factor.
pub open spec fn base_points(n: int) -> int {
    if n == 1 {
        100
    } else if n == 2 {
        300
    } else if n == 3 {
        500
    } else if n == 4 {
        800
    } else {
        0
    }
}

/// The level reached after `lines` cleared lines: one more every ten lines.
pub open spec fn level_for(lines: int) -> int {
    lines / 10 + 1
}

/// What the game adds to the score for clearing `n` lines with the combo
/// count (after this clear) `combo` at level `level`.
pub open spec fn clear_points(n: int, combo: int, level: int) -> int {
    base_points(n) * level + (if combo > 1 { (combo - 1) * 50 * level } else { 0 })
}

impl GameState {
    /// The board has `height` rows of `width` cells, and both sides are in range.
    pub open spec fn board_ok(self) -> bool {
        &&& 1 <= self.width <= MAX_SIDE
        &&& self.height <= MAX_SIDE
        &&& self.board.len() == self.height
        &&& rows_have_width(self.board, self.width as nat)
    }

    /// A piece that the game can hold as its falling piece: non-empty, its
    /// columns near the board, and not below the board.
    pub open spec fn piece_ok(self, p: Tetromino) -> bool {
        &&& has_cells(p)
        &&& -3 <= p.x <= self.width + 3
        &&& p.y <= self.height
    }

    /// The game's invariant.
    pub open spec fn wf(self) -> bool {
        &&& self.board_ok()
        &&& no_full_row(self.board)
        &&& self.level == level_for(self.lines as int)
        &&& self.piece_ok(self.current)
        &&& self.next == spawn_piece_of(self.next.kind)
        &&& (self.hold matches Some(h) ==> has_cells(h))
        &&& self.bag.no_duplicates()
        &&& self.bag.len() <= 7
    }

    /// Clearing the full rows of the board does not overflow a counter: with
    /// `n` full rows, the line count, the combo, the combo bonus factor and
    /// the score all stay within `u32`.
    pub open spec fn clear_fits(self) -> bool {
        let n = count_full(self.board) as int;
        n == 0 || {
            &&& self.lines + n <= u32::MAX
            &&& self.combo < u32::MAX
            &&& (self.combo >= 1 ==> self.combo * 50 <= u32::MAX)
            &&& self.score + clear_points(n, self.combo + 1, self.level as int) <= u32::MAX
        }
    }

    /// Locking the falling piece where it is does not overflow a counter.
    pub open spec fn lock_fits(self) -> bool {
        &&& self.tick_count < u64::MAX
        &&& self.place_spec().clear_fits()
    }

    /// A rotation does not overflow the rotation counters: they only grow on
    /// a repeated turn in the same direction, and the fault count only for S
    /// and Z pieces.
    pub open spec fn turn_fits(self, clockwise: bool) -> bool {
        ||| self.current.kind == PieceKind::O
        ||| !(self.last_rotation_was_cw == Some(clockwise) && self.consecutive_rotations > 0)
        ||| (self.consecutive_rotations < u32::MAX && ((self.current.kind == PieceKind::S
            || self.current.kind == PieceKind::Z) ==> self.finesse_faults < u32::MAX))
    }

    /// A hold does not overflow the piece count: only a hold into an empty
    /// slot brings in a new piece.
    pub open spec fn hold_fits(self) -> bool {
        !self.can_hold || self.hold is Some || self.tick_count < u64::MAX
    }

    /// The state a hard drop locks: the falling piece moved straight down as
    /// far as it goes.
    pub open spec fn dropped(self) -> GameState {
        let p = self.current;
        GameState { current: moved_to(p, p.x as int, self.landing(p, p.y + 1)), ..self }
    }

    /// A tick at time `now` locks the piece: the game runs, the piece cannot
    /// move down, and the lock delay has run out.
    pub open spec fn tick_locks(self, now: u64) -> bool {
        &&& !self.game_over
        &&& !self.paused
        &&& !self.move_spec(0, 1).1
        &&& (self.lock_delay_start matches Some(start) && now > start + LOCK_DELAY_MS)
    }

    /// Board cell (`px`, `py`) cannot hold a piece cell: it is left, right or
    /// below the board, or it is on the board and filled. Rows above the
    /// board are free.
    pub open spec fn blocked(self, px: int, py: int) -> bool {
        ||| px < 0
        ||| px >= self.width
        ||| py >= self.height
        ||| (py >= 0 && self.board[py][px] != Cell::Empty)
    }

    /// Some cell of the piece is blocked.
    pub open spec fn collides(self, p: Tetromino) -> bool {
        exists|r: int, c: int| #[trigger] p.filled(r, c) && self.blocked(p.x + c, p.y + r)
    }

    /// Moves the falling piece by (`dx`, `dy`) when it fits there; says whether it moved.
    pub open spec fn move_spec(self, dx: int, dy: int) -> (GameState, bool) {
        let moved = moved_to(self.current, self.current.x + dx, self.current.y + dy);
        if !self.collides(moved) {
            (
                GameState {
                    current: moved,
                    lock_delay_start: None,
                    events: if dx != 0 { self.events.push(GameEvent::Move) } else { self.events },
                    ..self
                },
                true,
            )
        } else {
            (self, false)
        }
    }

    /// Bookkeeping of rotation directions, before the rotation is tried.
    pub open spec fn finesse_spec(self, clockwise: bool) -> GameState {
        let s = match self.last_rotation_was_cw {
            Some(last_cw) => if last_cw == clockwise && self.consecutive_rotations > 0 {
                let n = (self.consecutive_rotations + 1) as u32;
                if n >= 2 && (self.current.kind == PieceKind::S || self.current.kind == PieceKind::Z) {
                    GameState {
                        consecutive_rotations: n,
                        finesse_faults: (self.finesse_faults + 1) as u32,
                        events: self.events.push(GameEvent::FinesseFault(1)),
                        ..self
                    }
                } else {
                    GameState { consecutive_rotations: n, ..self }
                }
            } else {
                GameState { consecutive_rotations: 1, ..self }
            },
            None => GameState { consecutive_rotations: 1, ..self },
        };
        GameState { last_rotation_was_cw: Some(clockwise), ..s }
    }

    /// The piece becomes the falling piece after a rotation.
    pub open spec fn rotated_into(self, p: Tetromino) -> GameState {
        GameState { current: p, lock_delay_start: None, events: self.events.push(GameEvent::Rotate), ..self }
    }

    /// Tries the turned piece where it is, then shifted by -1, +1, -2, +2
    /// columns; the first spot that fits wins, and when none fits the piece
    /// stays as it was.
    pub open spec fn kick_spec(self, r: Tetromino) -> GameState {
        if !self.collides(r) {
            self.rotated_into(r)
        } else if !self.collides(moved_to(r, r.x - 1, r.y as int)) {
            self.rotated_into(moved_to(r, r.x - 1, r.y as int))
        } else if !self.collides(moved_to(r, r.x + 1, r.y as int)) {
            self.rotated_into(moved_to(r, r.x + 1, r.y as int))
        } else if !self.collides(moved_to(r, r.x - 2, r.y as int)) {
            self.rotated_into(moved_to(r, r.x - 2, r.y as int))
        } else if !self.collides(moved_to(r, r.x + 2, r.y as int)) {
            self.rotated_into(moved_to(r, r.x + 2, r.y as int))
        } else {
            self
        }
    }

    /// Rotation: the square does not turn; other pieces turn a quarter
    /// clockwise, or three quarters for counter-clockwise, with wall kicks.
    pub open spec fn rotate_spec(self, clockwise: bool) -> GameState {
        if self.current.kind == PieceKind::O {
            self
        } else {
            let s = self.finesse_spec(clockwise);
            let r = if clockwise {
                turned(self.current)
            } else {
                turned(turned(turned(self.current)))
            };
            s.kick_spec(r)
        }
    }

    /// The next piece comes in at column 3, row 0; the new next piece is the
    /// kind at spot `i` of the (refilled) bag.
    pub open spec fn spawn_spec(self, i: int) -> GameState {
        let cur = moved_to(self.next, 3, 0);
        let from = refilled(self.bag);
        let s = GameState {
            tick_count: (self.tick_count + 1) as u64,
            current: cur,
            next: spawn_piece_of(from[i]),
            bag: from.remove(i),
            can_hold: true,
            last_rotation_was_cw: None,
            consecutive_rotations: 0,
            ..self
        };
        if s.collides(cur) {
            GameState { game_over: true, events: s.events.push(GameEvent::GameOver), ..s }
        } else {
            s
        }
    }

    /// Removes the full rows and scores them.
    pub open spec fn clear_spec(self) -> GameState {
        let n = count_full(self.board) as int;
        let board = cleared(self.board, self.width as nat);
        if n > 0 {
            let lines = self.lines + n;
            let combo = self.combo + 1;
            let level = level_for(lines);
            let events = self.events.push(GameEvent::Clear(n as u32, combo as u32));
            GameState {
                board,
                lines: lines as u32,
                combo: combo as u32,
                score: (self.score + clear_points(n, combo, self.level as int)) as u32,
                level: level as u32,
                events: if level > self.level { events.push(GameEvent::LevelUp) } else { events },
                ..self
            }
        } else {
            GameState { board, combo: 0, ..self }
        }
    }

    /// Writes the falling piece into the board.
    pub open spec fn place_spec(self) -> GameState {
        GameState {
            board: placed(self.board, self.current),
            events: self.events.push(GameEvent::Lock),
            ..self
        }
    }

    /// The board with the falling piece written in (the `Lock` event already
    /// recorded).
    pub open spec fn place_spec_board(self) -> GameState {
        GameState { board: placed(self.board, self.current), ..self }
    }

    /// Locking: place the piece, clear lines, bring in the next piece.
    pub open spec fn lock_spec(self, i: int) -> GameState {
        let s = self.place_spec().clear_spec().spawn_spec(i);
        GameState { lock_delay_start: None, ..s }
    }

    /// The row the piece comes to rest on when it falls straight down,
    /// trying rows from `k` on: one above the first row where it is blocked.
    pub open spec fn landing(self, p: Tetromino, k: int) -> int
        decreases self.height - k,
    {
        if k >= self.height || self.collides(moved_to(p, p.x as int, k)) {
            k - 1
        } else {
            self.landing(p, k + 1)
        }
    }

    /// The ghost's row and its distance below the falling piece fit in `i32`
    /// (always so while the piece is not far above the board).
    pub open spec fn ghost_in_range(self) -> bool {
        &&& i32::MIN <= self.landing(self.current, self.current.y as int)
        &&& self.ghost_offset() <= i32::MAX
    }

    /// How far below the falling piece its ghost is drawn.
    pub open spec fn ghost_offset(self) -> int {
        self.landing(self.current, self.current.y as int) - self.current.y
    }

    /// Hard drop: the piece falls as far as it can and locks.
    pub open spec fn hard_drop_spec(self, i: int) -> GameState {
        self.dropped().lock_spec(i)
    }

    /// Hold: once per piece, swap the falling piece with the held one (which
    /// comes back at column 3, row 0), or, with none held, put it aside and
    /// bring in the next piece.
    pub open spec fn hold_spec(self, i: int) -> GameState {
        if !self.can_hold {
            self
        } else {
            let events = self.events.push(GameEvent::Hold);
            match self.hold {
                Some(h) => GameState {
                    hold: Some(self.current),
                    current: moved_to(h, 3, 0),
                    can_hold: false,
                    events,
                    ..self
                },
                None => {
                    let s = GameState { hold: Some(self.current), events, ..self }.spawn_spec(i);
                    GameState { can_hold: false, ..s }
                },
            }
        }
    }

    /// One gravity step at time `now` (milliseconds): move down, or start the
    /// lock delay, or lock when the delay has run out.
    pub open spec fn tick_spec(self, now: u64, i: int) -> GameState {
        if self.game_over || self.paused {
            self
        } else {
            let (s, moved) = self.move_spec(0, 1);
            if !moved {
                match self.lock_delay_start {
                    Some(start) => if now > start + LOCK_DELAY_MS {
                        self.lock_spec(i)
                    } else {
                        self
                    },
                    None => GameState { lock_delay_start: Some(now), ..self },
                }
            } else {
                GameState { lock_delay_start: None, ..s }
            }
        }
    }
}

/// A fresh game: an empty board, level 1, and the first two pieces dealt from
/// a fresh bag at spots `i` and then `j`.
pub open spec fn new_game(width: usize, height: usize, i: int, j: int) -> GameState {
    let bag1 = all_kinds().remove(i);
    GameState {
        board: blank_rows(height as nat, width as nat),
        width,
        height,
        current: spawn_piece_of(all_kinds()[i]),
        next: spawn_piece_of(bag1[j]),
        hold: None,
        can_hold: true,
        score: 0,
        lines: 0,
        level: 1,
        game_over: false,
        paused: false,
        tick_count: 0,
        combo: 0,
        lock_delay_start: None,
        events: Seq::empty(),
        last_rotation_was_cw: None,
        consecutive_rotations: 0,
        finesse_faults: 0,
        bag: bag1.remove(j),
    }
}

/// The game.
pub struct Game {
    pub board: Vec<Vec<Cell>>,
    pub width: usize,
    pub height: usize,
    pub current: Tetromino,
    pub next: Tetromino,
    pub hold: Option<Tetromino>,
    pub can_hold: bool,
    pub score: u32,
    pub lines: u32,
    pub level: u32,
    pub game_over: bool,
    pub paused: bool,
    pub tick_count: u64,
    pub combo: u32,
    /// When the piece came to rest, in milliseconds of the front end's clock.
    pub lock_delay_start: Option<u64>,
    pub events: Vec<GameEvent>,
    /// Direction of the last rotation of the falling piece, for finesse tracking.
    pub last_rotation_was_cw: Option<bool>,
    /// Rotations in a row in the same direction.
    pub consecutive_rotations: u32,
    /// Finesse faults counted so far.
    pub finesse_faults: u32,
    pub bag: PieceBag,
}

impl View for Game {
    type V = GameState;

    open spec fn view(&self) -> GameState {
        GameState {
            board: rows_of(self.board@),
            width: self.width,
            height: self.height,
            current: self.current,
            next: self.next,
            hold: self.hold,
            can_hold: self.can_hold,
            score: self.score,
            lines: self.lines,
            level: self.level,
            game_over: self.game_over,
            paused: self.paused,
            tick_count: self.tick_count,
            combo: self.combo,
            lock_delay_start: self.lock_delay_start,
            events: self.events@,
            last_rotation_was_cw: self.last_rotation_was_cw,
            consecutive_rotations: self.consecutive_rotations,
            finesse_faults: self.finesse_faults,
            bag: self.bag.remaining@,
        }
    }
}

/// A piece that fits lies within the board's columns and above its bottom.
pub proof fn lemma_fit_bounds(s: GameState, p: Tetromino)
    requires
        has_cells(p),
        !s.collides(p),
    ensures
        -3 <= p.x < s.width,
        p.y < s.height,
{
    let (r, c) = choose|r: int, c: int| #[trigger] p.filled(r, c);
    assert(!s.blocked(p.x + c, p.y + r));
}

/// A non-empty piece whose top row is at or below the bottom of the board is blocked.
pub proof fn lemma_below_board_collides(s: GameState, p: Tetromino)
    requires
        has_cells(p),
        p.y >= s.height,
    ensures
        s.collides(p),
{
    let (r, c) = choose|r: int, c: int| #[trigger] p.filled(r, c);
    assert(s.blocked(p.x + c, p.y + r));
}

/// Falling from row `k` on, the piece comes to rest no higher than `k - 1`
/// and no lower than the bottom row (unless it starts below it).
pub proof fn lemma_landing_bounds(s: GameState, p: Tetromino, k: int)
    ensures
        k - 1 <= s.landing(p, k),
        s.landing(p, k) <= (if k <= s.height { s.height - 1 } else { k - 1 }),
    decreases s.height - k,
{
    if !(k >= s.height || s.collides(moved_to(p, p.x as int, k))) {
        lemma_landing_bounds(s, p, k + 1);
    }
}

/// Where a falling non-empty piece comes to rest: it fits in every row from
/// `k` down to its resting row, and is blocked one row lower.
pub proof fn lemma_landing_fits(s: GameState, p: Tetromino, k: int)
    requires
        has_cells(p),
        i32::MIN <= k <= i32::MAX,
        s.height < i32::MAX,
    ensures
        forall|m: int| k <= m <= s.landing(p, k) ==> !s.collides(#[trigger] moved_to(p, p.x as int, m)),
        s.collides(moved_to(p, p.x as int, s.landing(p, k) + 1)),
    decreases s.height - k,
{
    if k >= s.height || s.collides(moved_to(p, p.x as int, k)) {
        if k >= s.height {
            lemma_moved_has_cells(p, p.x as int, k);
            lemma_below_board_collides(s, moved_to(p, p.x as int, k));
        }
    } else {
        lemma_landing_fits(s, p, k + 1);
    }
}

impl Game {
    /// The game's invariant.
    pub open spec fn wf(&self) -> bool {
        self@.wf() && self.bag.wf()
    }

    /// Whether the piece would overlap a wall, the floor or a filled cell.
    pub fn collision(&self, piece: &Tetromino) -> (hit: bool)
        requires
            self@.board_ok(),
            piece.x + 3 <= i32::MAX,
            piece.y + 3 <= i32::MAX,
        ensures
            hit == self@.collides(*piece),
    {
        let cells = piece.cells();
        let ghost cv = cells@.map_values(|q: (i32, i32)| (q.0 as int, q.1 as int));
        let ghost s = self@;
        let mut i: usize = 0;
        while i < cells.len()
            invariant
                s == self@,
                s.board_ok(),
                cv == cells@.map_values(|q: (i32, i32)| (q.0 as int, q.1 as int)),
                cv == piece.spec_cells(),
                i <= cells@.len(),
                forall|j: int| 0 <= j < i ==> !s.blocked(#[trigger] cv[j].0, cv[j].1),
            decreases cells@.len() - i,
        {
            let (x, y) = cells[i];
            proof {
                assert(cv[i as int] == (x as int, y as int));
                assert(piece.spec_cells().contains((x as int, y as int)));
                lemma_cells_are_occupied(*piece, (x as int, y as int));
                assert(piece.filled(y - piece.y, x - piece.x));
            }
            if x < 0 || x >= self.width as i32 || y >= self.height as i32 {
                assert(s.blocked(piece.x + (x - piece.x), piece.y + (y - piece.y)));
                return true;
            }
            if y >= 0 {
                assert(self.board@[y as int]@ == s.board[y as int]);
                if self.board[y as usize][x as usize] != Cell::Empty {
                    assert(s.blocked(piece.x + (x - piece.x), piece.y + (y - piece.y)));
                    return true;
                }
            }
            i = i + 1;
        }
        proof {
            if s.collides(*piece) {
                let (r, c) = choose|r: int, c: int| #[trigger] piece.filled(r, c) && s.blocked(piece.x + c, piece.y + r);
                let cell = (piece.x + c, piece.y + r);
                lemma_cells_are_occupied(*piece, cell);
                let j = choose|j: int| 0 <= j < cv.len() && cv[j] == cell;
                assert(!s.blocked(cv[j].0, cv[j].1));
            }
        }
        false
    }

    /// Moves the falling piece by (`dx`, `dy`) if it fits there; returns
    /// whether it moved. A sideways move is reported as an event.
    pub fn move_piece(&mut self, dx: i32, dy: i32) -> (moved: bool)
        requires
            old(self).wf(),
            i32::MIN <= old(self).current.x + dx,
            old(self).current.x + dx + 3 <= i32::MAX,
            i32::MIN <= old(self).current.y + dy,
            old(self).current.y + dy + 3 <= i32::MAX,
        ensures
            final(self).wf(),
            (final(self)@, moved) == old(self)@.move_spec(dx as int, dy as int),
    {
        let mut moved = self.current;
        moved.x = moved.x + dx;
        moved.y = moved.y + dy;
        assert(moved == moved_to(old(self).current, old(self).current.x + dx, old(self).current.y + dy));
        if !self.collision(&moved) {
            proof {
                lemma_moved_has_cells(old(self).current, moved.x as int, moved.y as int);
                lemma_fit_bounds(old(self)@, moved);
            }
            self.current = moved;
            self.lock_delay_start = None;
            if dx != 0 {
                self.events.push(GameEvent::Move);
            }
            assert(self@ =~= old(self)@.move_spec(dx as int, dy as int).0);
            true
        } else {
            false
        }
    }


    /// How many rows below the falling piece its ghost (the spot a hard drop
    /// would reach) lies.
    pub fn get_ghost_y_offset(&self) -> (offset: i32)
        requires
            self.wf(),
            self@.ghost_in_range(),
        ensures
            offset == self@.ghost_offset(),
    {
        let ghost s = self@;
        let mut ghost = self.current;
        assert(ghost == moved_to(s.current, s.current.x as int, ghost.y as int));
        while !self.collision(&ghost)
            invariant
                s == self@,
                s.wf(),
                ghost == moved_to(s.current, s.current.x as int, ghost.y as int),
                s.current.y <= ghost.y <= s.height,
                s.landing(s.current, ghost.y as int) == s.landing(s.current, s.current.y as int),
            decreases s.height - ghost.y,
        {
            proof {
                lemma_moved_has_cells(s.current, s.current.x as int, ghost.y as int);
                if ghost.y >= s.height {
                    lemma_below_board_collides(s, ghost);
                }
            }
            ghost.y = ghost.y + 1;
        }
        ghost.y = ghost.y - 1;
        ghost.y - self.current.y
    }


    /// Rotates the falling piece (clockwise, or counter-clockwise as three
    /// clockwise turns), with wall kicks, and keeps track of finesse: a second
    /// rotation in a row in the same direction of an S or Z piece is a fault.
    /// The square does not rotate.
    pub fn rotate(&mut self, clockwise: bool)
        requires
            old(self).wf(),
            old(self)@.turn_fits(clockwise),
        ensures
            final(self).wf(),
            final(self)@ == old(self)@.rotate_spec(clockwise),
    {
        // The square does not rotate.
        if self.current.kind == PieceKind::O {
            return;
        }
        if let Some(last_cw) = self.last_rotation_was_cw {
            if last_cw == clockwise && self.consecutive_rotations > 0 {
                self.consecutive_rotations = self.consecutive_rotations + 1;
                // A second turn the same way is wasted on S and Z pieces.
                if self.consecutive_rotations >= 2 {
                    if self.current.kind == PieceKind::S || self.current.kind == PieceKind::Z {
                        self.events.push(GameEvent::FinesseFault(1));
                        self.finesse_faults = self.finesse_faults + 1;
                    }
                }
            } else {
                self.consecutive_rotations = 1;
            }
        } else {
            self.consecutive_rotations = 1;
        }
        self.last_rotation_was_cw = Some(clockwise);
        let ghost s1 = self@;
        assert(s1 =~= old(self)@.finesse_spec(clockwise));
        let rotated = if clockwise {
            self.current.rotate()
        } else {
            self.current.rotate().rotate().rotate()
        };
        proof {
            let c = old(self).current;
            lemma_turn_value(c, turned(c));
            lemma_turn_value(turned(c), turned(turned(c)));
            lemma_turn_value(turned(turned(c)), turned(turned(turned(c))));
        }
        // Plain rotation first.
        if !self.collision(&rotated) {
            proof {
                lemma_fit_bounds(s1, rotated);
            }
            self.current = rotated;
            self.lock_delay_start = None;
            self.events.push(GameEvent::Rotate);
            assert(self@ =~= s1.kick_spec(rotated));
            return;
        }
        // Wall kicks: shift sideways and try again.
        let offsets: [i32; 5] = [0, -1, 1, -2, 2];
        let ghost offs = seq![0int, -1, 1, -2, 2];
        assert(offsets@ =~= offs.map_values(|o: int| o as i32));
        let mut k: usize = 0;
        while k < 5
            invariant
                self@ == s1,
                s1.wf(),
                s1 == old(self)@.finesse_spec(clockwise),
                offsets@ == offs.map_values(|o: int| o as i32),
                offs == seq![0int, -1, 1, -2, 2],
                has_cells(rotated),
                old(self).current.kind != PieceKind::O,
                rotated == (if clockwise {
                    turned(old(self).current)
                } else {
                    turned(turned(turned(old(self).current)))
                }),
                rotated.x == old(self).current.x,
                rotated.y == old(self).current.y,
                k <= 5,
                forall|j: int| 0 <= j < k ==> s1.collides(#[trigger] moved_to(rotated, rotated.x + offs[j], rotated.y as int)),
                s1.collides(rotated),
            decreases 5 - k,
        {
            let offset = offsets[k];
            let mut kicked = rotated;
            kicked.x = kicked.x + offset;
            assert(kicked == moved_to(rotated, rotated.x + offs[k as int], rotated.y as int));
            if !self.collision(&kicked) {
                proof {
                    lemma_moved_has_cells(rotated, kicked.x as int, kicked.y as int);
                    lemma_fit_bounds(s1, kicked);
                    assert(moved_to(rotated, rotated.x + 0, rotated.y as int) == rotated);
                    if k > 1 {
                        assert(s1.collides(moved_to(rotated, rotated.x + offs[1], rotated.y as int)));
                    }
                    if k > 2 {
                        assert(s1.collides(moved_to(rotated, rotated.x + offs[2], rotated.y as int)));
                    }
                    if k > 3 {
                        assert(s1.collides(moved_to(rotated, rotated.x + offs[3], rotated.y as int)));
                    }
                }
                self.current = kicked;
                self.lock_delay_start = None;
                self.events.push(GameEvent::Rotate);
                assert(self@ =~= s1.kick_spec(rotated));
                return;
            }
            k = k + 1;
        }
        assert(s1.collides(moved_to(rotated, rotated.x + offs[1], rotated.y as int)));
        assert(s1.collides(moved_to(rotated, rotated.x + offs[2], rotated.y as int)));
        assert(s1.collides(moved_to(rotated, rotated.x + offs[3], rotated.y as int)));
        assert(s1.collides(moved_to(rotated, rotated.x + offs[4], rotated.y as int)));
    }


    /// Removes the full rows; when there were any, adds them to the line
    /// count, raises the combo, scores them and raises the level every ten
    /// lines; otherwise the combo ends.
    pub fn clear_lines(&mut self)
        requires
            old(self)@.board_ok(),
            old(self)@.clear_fits(),
        ensures
            final(self)@ == old(self)@.clear_spec(),
            final(self)@.board_ok(),
            no_full_row(final(self)@.board),
    {
        proof {
            lemma_cleared_shape(old(self)@.board, old(self).width as nat);
        }
        let removed = remove_full_rows(&mut self.board, self.width);
        let lines_cleared: u32 = removed as u32;
        if lines_cleared > 0 {
            self.lines = self.lines + lines_cleared;
            self.combo = self.combo + 1;
            self.events.push(GameEvent::Clear(lines_cleared, self.combo));

            // Score with a bonus for consecutive clears.
            let base_score: u32 = match lines_cleared {
                1 => 100,
                2 => 300,
                3 => 500,
                4 => 800,
                _ => 0,
            };
            let ghost c0 = old(self).combo as int;
            let ghost lv = self.level as int;
            proof {
                assert(c0 * 50 * lv >= 0) by (nonlinear_arith)
                    requires c0 >= 0, lv >= 0;
                assert(base_score * lv >= 0) by (nonlinear_arith)
                    requires base_score >= 0, lv >= 0;
                assert(base_score == base_points(lines_cleared as int));
            }
            let combo_bonus: u32 = if self.combo > 1 {
                (self.combo - 1) * 50 * self.level
            } else {
                0
            };
            self.score = self.score + (base_score * self.level) + combo_bonus;

            let old_level = self.level;
            self.level = (self.lines / 10) + 1;
            if self.level > old_level {
                self.events.push(GameEvent::LevelUp);
            }
            assert(self@ =~= old(self)@.clear_spec());
        } else {
            self.combo = 0;
            assert(self@ =~= old(self)@.clear_spec());
        }
    }

    /// Deals the next piece from the bag.
    pub fn random_piece(bag: &mut PieceBag) -> (p: Tetromino)
        requires
            old(bag).wf(),
        ensures
            final(bag).wf(),
            exists|i: int|
                0 <= i < refilled(old(bag).remaining@).len() && p == spawn_piece_of(refilled(old(bag).remaining@)[i])
                    && final(bag).remaining@ == #[trigger] refilled(old(bag).remaining@).remove(i),
    {
        let kind = bag.draw();
        Tetromino::of_kind(kind)
    }

    /// Brings in the next piece at column 3, row 0, deals a new next piece,
    /// allows holding again, and ends the game when the new piece does not fit.
    pub fn spawn_piece(&mut self)
        requires
            old(self).wf(),
            old(self).tick_count < u64::MAX,
        ensures
            final(self).wf(),
            exists|i: int| 0 <= i < refilled(old(self)@.bag).len() && final(self)@ == #[trigger] old(self)@.spawn_spec(i),
    {
        self.tick_count = self.tick_count + 1;
        self.current = self.next;
        self.current.x = 3;
        self.current.y = 0;
        self.next = Self::random_piece(&mut self.bag);
        self.can_hold = true;
        // A new piece starts its rotation tracking afresh.
        self.last_rotation_was_cw = None;
        self.consecutive_rotations = 0;
        proof {
            lemma_spawn_has_cells(old(self).next.kind);
            lemma_moved_has_cells(old(self).next, 3, 0);
        }
        let ghost i = choose|i: int|
            0 <= i < refilled(old(self).bag.remaining@).len() && self.next == spawn_piece_of(refilled(old(self).bag.remaining@)[i])
                && self.bag.remaining@ == #[trigger] refilled(old(self).bag.remaining@).remove(i);
        assert(self.current == moved_to(old(self).next, 3, 0));
        if self.collision(&self.current) {
            self.game_over = true;
            self.events.push(GameEvent::GameOver);
        }
        assert(self@ =~= old(self)@.spawn_spec(i));
    }


    /// Locks the falling piece: writes its cells into the board, clears full
    /// lines, and brings in the next piece.
    pub fn lock_piece(&mut self)
        requires
            old(self).wf(),
            old(self)@.lock_fits(),
        ensures
            final(self).wf(),
            exists|i: int| 0 <= i < refilled(old(self)@.bag).len() && final(self)@ == #[trigger] old(self)@.lock_spec(i),
    {
        self.events.push(GameEvent::Lock);
        let ghost s0 = self@;
        let ghost rows0 = s0.board;
        let cells = self.current.cells();
        let ghost cv = cells@.map_values(|q: (i32, i32)| (q.0 as int, q.1 as int));
        let kind = self.current.kind;
        let mut i: usize = 0;
        proof {
            let f0 = filled_upto(rows0, kind, cv, 0);
            assert forall|r: int| 0 <= r < rows0.len() implies #[trigger] f0[r] == rows0[r] by {
                assert(f0[r] =~= rows0[r]);
            }
            assert(rows0 =~= f0);
        }
        while i < cells.len()
            invariant
                i <= cells@.len(),
                cv == cells@.map_values(|q: (i32, i32)| (q.0 as int, q.1 as int)),
                cv == s0.current.spec_cells(),
                kind == s0.current.kind,
                rows0 == s0.board,
                s0.board_ok(),
                self.width == s0.width,
                self.height == s0.height,
                rows_of(self.board@) == filled_upto(rows0, kind, cv, i as int),
                self@ == (GameState { board: rows_of(self.board@), ..s0 }),
            decreases cells@.len() - i,
        {
            let (x, y) = cells[i];
            let ghost before = rows_of(self.board@);
            let ghost bb = self.board@;
            assert(before.len() == bb.len());
            assert(before.len() == rows0.len());
            if y >= 0 && y < self.height as i32 && x >= 0 && x < self.width as i32 {
                assert(y < s0.height);
                assert(rows0.len() == s0.height);
                assert(bb.len() == s0.height);
                assert(bb[y as int]@ == before[y as int]);
                assert(before[y as int].len() == rows0[y as int].len());
                self.board[y as usize][x as usize] = Cell::Filled(kind);
                assert(self.board@[y as int]@ == bb[y as int]@.update(x as int, Cell::Filled(kind)));
                assert(forall|r: int| 0 <= r < bb.len() && r != y ==> self.board@[r] == bb[r]);
            }
            proof {
                let now = rows_of(self.board@);
                let want = filled_upto(rows0, kind, cv, i + 1);
                assert(cv.take(i + 1) =~= cv.take(i as int).push(cv[i as int]));
                assert(cv[i as int] == (x as int, y as int));
                assert forall|r: int| 0 <= r < want.len() implies #[trigger] now[r] == want[r] by {
                    assert(now[r] == self.board@[r]@);
                    assert(before[r] == bb[r]@);
                    assert forall|c: int| 0 <= c < want[r].len() implies #[trigger] now[r][c] == want[r][c] by {
                        let t0 = cv.take(i as int);
                        let t1 = cv.take(i + 1);
                        if t1.contains((c, r)) && !t0.contains((c, r)) {
                            let j = choose|j: int| 0 <= j < t1.len() && t1[j] == (c, r);
                            if j < i {
                                assert(t0[j] == (c, r));
                            }
                        }
                        if t0.contains((c, r)) {
                            let j = choose|j: int| 0 <= j < t0.len() && t0[j] == (c, r);
                            assert(t1[j] == (c, r));
                        }
                        if (c, r) == (x as int, y as int) {
                            assert(t1[i as int] == (c, r));
                        }
                    }
                    assert(now[r] =~= want[r]);
                }
                assert(now =~= want);
            }
            i = i + 1;
        }
        proof {
            let done = filled_upto(rows0, kind, cv, cells@.len() as int);
            let p = placed(rows0, s0.current);
            assert(cv.take(cv.len() as int) =~= cv);
            assert forall|r: int| 0 <= r < p.len() implies #[trigger] done[r] == p[r] by {
                assert forall|c: int| 0 <= c < p[r].len() implies #[trigger] done[r][c] == p[r][c] by {
                    lemma_cells_are_occupied(s0.current, (c, r));
                }
                assert(done[r] =~= p[r]);
            }
            assert(done =~= p);
            assert(self@ =~= s0.place_spec_board());
            lemma_placed_full_rows(rows0, s0.current);
        }
        self.clear_lines();
        let ghost s2 = self@;
        self.spawn_piece();
        let ghost i = choose|i: int| 0 <= i < refilled(s2.bag).len() && self@ == #[trigger] s2.spawn_spec(i);
        self.lock_delay_start = None;
        assert(self@ =~= old(self)@.lock_spec(i));
    }


    /// Drops the falling piece as far as it goes and locks it.
    pub fn hard_drop(&mut self)
        requires
            old(self).wf(),
            old(self)@.dropped().lock_fits(),
        ensures
            final(self).wf(),
            exists|i: int| 0 <= i < refilled(old(self)@.bag).len() && final(self)@ == #[trigger] old(self)@.hard_drop_spec(i),
    {
        let ghost s0 = self@;
        let ghost c0 = s0.current;
        let ghost target = s0.landing(c0, c0.y + 1);
        loop
            invariant
                self.wf(),
                s0.dropped().lock_fits(),
                self@ == (GameState { current: moved_to(c0, c0.x as int, self.current.y as int), lock_delay_start: self.lock_delay_start, ..s0 }),
                c0 == s0.current,
                s0.wf(),
                target == s0.landing(c0, c0.y + 1),
                target == s0.landing(c0, self.current.y + 1),
            ensures
                self.wf(),
                s0.dropped().lock_fits(),
                self@ == (GameState { current: moved_to(c0, c0.x as int, target), lock_delay_start: self.lock_delay_start, ..s0 }),
            decreases self.height - self.current.y,
        {
            let ghost before = self@;
            proof {
                lemma_moved_has_cells(c0, c0.x as int, self.current.y + 1);
            }
            let moved = self.move_piece(0, 1);
            if !moved {
                proof {
                    let below = moved_to(c0, c0.x as int, before.current.y + 1);
                    assert(before.current.y + 1 >= s0.height || s0.collides(below));
                }
                assert(self@ =~= (GameState { current: moved_to(c0, c0.x as int, target), lock_delay_start: self.lock_delay_start, ..s0 }));
                break;
            }
            proof {
                let here = moved_to(c0, c0.x as int, before.current.y + 1);
                assert(self.current == here);
                assert(self.current.y < s0.height);
                assert(!s0.collides(moved_to(c0, c0.x as int, self.current.y as int)));
            }
            assert(self@ =~= (GameState { current: moved_to(c0, c0.x as int, self.current.y as int), lock_delay_start: self.lock_delay_start, ..s0 }));
        }
        let ghost s1 = self@;
        assert(s1.place_spec().board == s0.dropped().place_spec().board);
        self.lock_piece();
        let ghost i = choose|i: int| 0 <= i < refilled(s1.bag).len() && self@ == #[trigger] s1.lock_spec(i);
        assert(self@ =~= old(self)@.hard_drop_spec(i));
    }

    /// Holds the falling piece, once per piece: swaps it with the held piece,
    /// or, when none is held yet, puts it aside and brings in the next piece.
    pub fn hold_piece(&mut self)
        requires
            old(self).wf(),
            old(self)@.hold_fits(),
        ensures
            final(self).wf(),
            exists|i: int| 0 <= i < refilled(old(self)@.bag).len() && final(self)@ == #[trigger] old(self)@.hold_spec(i),
    {
        assert(refilled(old(self)@.bag).len() > 0);
        if !self.can_hold {
            assert(self@ =~= old(self)@.hold_spec(0));
            return;
        }
        self.events.push(GameEvent::Hold);
        let ghost s1 = self@;
        let ghost mut pick: int = 0;
        if let Some(held_piece) = self.hold {
            self.hold = Some(self.current);
            self.current = held_piece;
            self.current.x = 3;
            self.current.y = 0;
            proof {
                lemma_moved_has_cells(held_piece, 3, 0);
            }
            assert(self.current == moved_to(held_piece, 3, 0));
        } else {
            self.hold = Some(self.current);
            let ghost s2 = self@;
            self.spawn_piece();
            proof {
                pick = choose|i: int| 0 <= i < refilled(s2.bag).len() && self@ == #[trigger] s2.spawn_spec(i);
            }
        }
        self.can_hold = false;
        proof {
            if s1.hold is Some {
                assert(self@ =~= old(self)@.hold_spec(0));
            } else {
                assert(self@ =~= old(self)@.hold_spec(pick));
            }
        }
    }

    /// One gravity step at time `now_ms` (milliseconds on the front end's
    /// clock). Nothing happens when the game is over or paused. The piece
    /// moves down one row; when it cannot, the lock delay starts, and once
    /// more than `LOCK_DELAY_MS` have passed since then the piece locks.
    pub fn tick(&mut self, now_ms: u64)
        requires
            old(self).wf(),
            old(self)@.tick_locks(now_ms) ==> old(self)@.lock_fits(),
        ensures
            final(self).wf(),
            exists|i: int| 0 <= i < refilled(old(self)@.bag).len() && final(self)@ == #[trigger] old(self)@.tick_spec(now_ms, i),
    {
        assert(refilled(old(self)@.bag).len() > 0);
        if self.game_over || self.paused {
            assert(self@ =~= old(self)@.tick_spec(now_ms, 0));
            return;
        }
        // Try to move down.
        if !self.move_piece(0, 1) {
            // Lock delay.
            if let Some(start) = self.lock_delay_start {
                if now_ms > start && now_ms - start > LOCK_DELAY_MS {
                    let ghost s1 = self@;
                    assert(s1 == old(self)@);
                    self.lock_piece();
                    let ghost i = choose|i: int| 0 <= i < refilled(s1.bag).len() && self@ == #[trigger] s1.lock_spec(i);
                    assert(self@ =~= old(self)@.tick_spec(now_ms, i));
                } else {
                    assert(self@ =~= old(self)@.tick_spec(now_ms, 0));
                }
            } else {
                self.lock_delay_start = Some(now_ms);
                assert(self@ =~= old(self)@.tick_spec(now_ms, 0));
            }
        } else {
            // Moving down resets the lock delay.
            self.lock_delay_start = None;
            assert(self@ =~= old(self)@.tick_spec(now_ms, 0));
        }
    }

    /// A new game on an empty board of `width` columns and `height` rows,
    /// with the first two pieces dealt from a fresh bag.
    pub fn new(width: usize, height: usize) -> (g: Self)
        requires
            1 <= width <= MAX_SIDE,
            height <= MAX_SIDE,
        ensures
            g.wf(),
            exists|i: int, j: int| 0 <= i < 7 && 0 <= j < 6 && g@ == #[trigger] new_game(width, height, i, j),
    {
        let mut board: Vec<Vec<Cell>> = Vec::new();
        let mut r: usize = 0;
        while r < height
            invariant
                r <= height,
                rows_of(board@) == blank_rows(r as nat, width as nat),
            decreases height - r,
        {
            let ghost b0 = board@;
            assert(rows_of(b0).len() == b0.len());
            let row = empty_row(width);
            board.push(row);
            assert(board@.len() == r + 1);
            assert(board@[r as int]@ == blank_row(width as nat));
            r = r + 1;
            assert(rows_of(board@) =~= blank_rows(r as nat, width as nat)) by {
                assert forall|k: int| 0 <= k < r implies #[trigger] rows_of(board@)[k] == blank_rows(r as nat, width as nat)[k] by {
                    if k < r - 1 {
                        assert(board@[k] == b0[k]);
                        assert(rows_of(b0)[k] == blank_row(width as nat));
                    }
                }
            }
        }
        let mut bag = PieceBag::new();
        let current = Self::random_piece(&mut bag);
        let ghost bag1 = bag.remaining@;
        let next = Self::random_piece(&mut bag);
        let g = Self {
            board,
            width,
            height,
            current,
            next,
            hold: None,
            can_hold: true,
            score: 0,
            lines: 0,
            level: 1,
            game_over: false,
            paused: false,
            tick_count: 0,
            combo: 0,
            lock_delay_start: None,
            events: Vec::new(),
            last_rotation_was_cw: None,
            consecutive_rotations: 0,
            finesse_faults: 0,
            bag,
        };
        proof {
            let i = choose|i: int| 0 <= i < refilled(all_kinds()).len() && current == spawn_piece_of(refilled(all_kinds())[i])
                && bag1 == #[trigger] refilled(all_kinds()).remove(i);
            let j = choose|j: int| 0 <= j < refilled(bag1).len() && next == spawn_piece_of(refilled(bag1)[j])
                && g.bag.remaining@ == #[trigger] refilled(bag1).remove(j);
            assert(refilled(bag1) == bag1);
            lemma_spawn_has_cells(current.kind);
            assert forall|k: int| 0 <= k < g@.board.len() implies !crate::board::row_full(#[trigger] g@.board[k]) by {
                assert(g@.board[k] == blank_row(width as nat));
                assert(g@.board[k][0] == Cell::Empty);
            }
            assert(g@ =~= new_game(width, height, i, j));
        }
        g
    }

    /// Starts over with a new game on a board of the same size.
    pub fn restart(&mut self)
        requires
            old(self).wf(),
        ensures
            final(self).wf(),
            exists|i: int, j: int| 0 <= i < 7 && 0 <= j < 6 && final(self)@ == #[trigger] new_game(old(self).width, old(self).height, i, j),
    {
        let width = self.width;
        let height = self.height;
        *self = Game::new(width, height);
    }

}

} // verus!
