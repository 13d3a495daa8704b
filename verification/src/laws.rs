use vstd::prelude::*;
use crate::piece::{PieceKind, moved_to, turned};
use crate::board::{Cell, count_full, cleared, blank_rows, no_full_row, lemma_placed_full_rows, lemma_cleared_shape, lemma_kept_rows, lemma_kept_all, lemma_no_full_row_counts_zero};
use crate::game::{GameState, lemma_fit_bounds, base_points, level_for};
use crate::control::{Action, Shade};
use crate::game::{GameEvent, new_game};
use crate::bag::all_kinds;

verus! {

/// The ghost shows where a hard drop puts the piece: a hard drop locks the
/// falling piece exactly `ghost_offset` rows below where it is, and the
/// piece fits there.
pub proof fn lemma_hard_drop_lands_on_ghost(s: GameState, i: int)
    requires
        s.wf(),
        !s.collides(s.current),
    ensures
        s.current.y + s.ghost_offset() == s.landing(s.current, s.current.y + 1),
        s.hard_drop_spec(i) == (GameState {
            current: moved_to(s.current, s.current.x as int, s.current.y + s.ghost_offset()),
            ..s
        }).lock_spec(i),
        !s.collides(moved_to(s.current, s.current.x as int, s.current.y + s.ghost_offset())),
{
    let p = s.current;
    lemma_fit_bounds(s, p);
    assert(moved_to(p, p.x as int, p.y as int) == p);
    crate::game::lemma_landing_fits(s, p, p.y as int);
    crate::game::lemma_landing_bounds(s, p, p.y + 1);
    let m = s.landing(p, p.y as int);
    assert(p.y <= m);
    assert(!s.collides(moved_to(p, p.x as int, m)));
}

/// Holding works once per piece: a second hold before the next piece comes
/// in changes nothing.
pub proof fn lemma_hold_once_per_piece(s: GameState, i: int, j: int)
    ensures
        s.hold_spec(i).hold_spec(j) == s.hold_spec(i),
{
}

/// A move that succeeded is undone by the opposite move, which also succeeds.
pub proof fn lemma_move_is_undone_by_opposite(s: GameState, dx: int, dy: int)
    requires
        s.wf(),
        !s.collides(s.current),
        i32::MIN <= s.current.x + dx,
        s.current.x + dx + 3 <= i32::MAX,
        i32::MIN <= s.current.y + dy,
        s.current.y + dy + 3 <= i32::MAX,
        s.move_spec(dx, dy).1,
    ensures
        s.move_spec(dx, dy).0.move_spec(-dx, -dy).1,
        s.move_spec(dx, dy).0.move_spec(-dx, -dy).0.current == s.current,
{
    let t = s.move_spec(dx, dy).0;
    let p = s.current;
    assert(moved_to(t.current, t.current.x + -dx, t.current.y + -dy) == p);
}

/// A successful move leaves the falling piece where it fits.
pub proof fn lemma_moved_piece_fits(s: GameState, dx: int, dy: int)
    requires
        s.move_spec(dx, dy).1,
    ensures
        !s.move_spec(dx, dy).0.collides(s.move_spec(dx, dy).0.current),
{
}

/// After a rotation the falling piece either stayed as it was or fits; it
/// never changes row or kind, so a piece that fitted still fits.
pub proof fn lemma_rotated_piece_fits(s: GameState, clockwise: bool)
    ensures
        s.rotate_spec(clockwise).current == s.current || !s.rotate_spec(clockwise).collides(s.rotate_spec(clockwise).current),
        s.rotate_spec(clockwise).current.y == s.current.y,
        s.rotate_spec(clockwise).current.kind == s.current.kind,
        s.rotate_spec(clockwise).board == s.board,
        !s.collides(s.current) ==> !s.collides(s.rotate_spec(clockwise).current),
{
}

/// The square never turns.
pub proof fn lemma_square_does_not_turn(s: GameState, clockwise: bool)
    requires
        s.current.kind == PieceKind::O,
    ensures
        s.rotate_spec(clockwise) == s,
{
}

/// A lock clears at most four lines: only the rows the piece covers can
/// have become full.
pub proof fn lemma_lock_clears_at_most_four(s: GameState, i: int)
    requires
        s.wf(),
    ensures
        count_full(s.place_spec().board) <= 4,
        s.lock_spec(i).lines <= s.lines + 4,
{
    lemma_placed_full_rows(s.board, s.current);
}

/// Locking never lowers the score or the line count; the combo goes up by
/// one when lines are cleared and back to zero when none are.
pub proof fn lemma_lock_scoring(s: GameState, i: int)
    requires
        s.wf(),
        s.lock_fits(),
    ensures
        s.lock_spec(i).score >= s.score,
        s.lock_spec(i).lines >= s.lines,
        s.lock_spec(i).level >= s.level,
        count_full(s.place_spec().board) > 0 ==> s.lock_spec(i).combo == s.combo + 1,
        count_full(s.place_spec().board) == 0 ==> s.lock_spec(i).combo == 0,
{
    lemma_clear_never_lowers(s.place_spec());
}

/// Clearing keeps the board's shape, leaves no full row, and never lowers
/// the score, the line count or the level.
pub proof fn lemma_clear_never_lowers(s: GameState)
    requires
        s.board_ok(),
        s.clear_fits(),
    ensures
        s.clear_spec().board_ok(),
        no_full_row(s.clear_spec().board),
        s.clear_spec().score >= s.score,
        s.clear_spec().lines >= s.lines,
        s.level == level_for(s.lines as int) ==> s.clear_spec().level >= s.level,
{
    lemma_cleared_shape(s.board, s.width as nat);
    let n = count_full(s.board) as int;
    let c = s.combo as int;
    let lv = s.level as int;
    assert(c * 50 * lv >= 0) by (nonlinear_arith)
        requires c >= 0, lv >= 0;
    assert(base_points(n) * lv >= 0) by (nonlinear_arith)
        requires base_points(n) >= 0, lv >= 0;
}

/// Clearing right after a clear finds no full row: it keeps everything and
/// only ends the combo.
pub proof fn lemma_clear_twice(s: GameState)
    requires
        s.board_ok(),
        s.clear_fits(),
    ensures
        s.clear_spec().clear_fits(),
        s.clear_spec().clear_spec() == (GameState { combo: 0, ..s.clear_spec() }),
{
    lemma_cleared_shape(s.board, s.width as nat);
    let t = s.clear_spec();
    lemma_no_full_row_counts_zero(t.board);
    assert(cleared(t.board, t.width as nat) =~= t.board) by {
        lemma_kept_rows(t.board, t.width as nat);
        lemma_kept_all(t.board);
        assert(blank_rows(0, t.width as nat) =~= Seq::<Seq<Cell>>::empty());
    }
}

/// Nothing happens on a tick while the game is over or paused.
pub proof fn lemma_idle_tick(s: GameState, now: u64, i: int)
    requires
        s.game_over || s.paused,
    ensures
        s.tick_spec(now, i) == s,
{
}

/// Once the game is over it stays over until a restart: no tick and no
/// other command ends it.
pub proof fn lemma_game_over_sticks(s: GameState, action: Action, now: u64, i: int, j: int)
    requires
        s.game_over,
        action != Action::Restart,
    ensures
        s.apply_spec(action, i, j).game_over,
        s.tick_spec(now, i).game_over,
{
}

/// Lock delay: a tick never locks a piece (the board stays as it is) before
/// more than `LOCK_DELAY_MS` have passed since the piece came to rest; the
/// first tick that finds it resting only starts the delay.
pub proof fn lemma_no_lock_before_delay(s: GameState, now: u64, i: int)
    requires
        match s.lock_delay_start {
            Some(start) => now <= start + crate::game::LOCK_DELAY_MS,
            None => true,
        },
    ensures
        s.tick_spec(now, i).board == s.board,
        s.tick_spec(now, i).score == s.score,
{
}

/// Wall kicks: the turned piece is tried where it is, then shifted by -1,
/// +1, -2 and +2 columns, in that order. The first spot where it fits is
/// where the piece goes (same row, a `Rotate` event recorded); when it fits
/// nowhere, the falling piece stays as it was.
pub proof fn lemma_wall_kick_order(s: GameState, clockwise: bool)
    requires
        s.current.kind != PieceKind::O,
    ensures
        ({
            let r = if clockwise { turned(s.current) } else { turned(turned(turned(s.current))) };
            let t = s.rotate_spec(clockwise);
            let at0 = r;
            let at1 = moved_to(r, r.x - 1, r.y as int);
            let at2 = moved_to(r, r.x + 1, r.y as int);
            let at3 = moved_to(r, r.x - 2, r.y as int);
            let at4 = moved_to(r, r.x + 2, r.y as int);
            &&& !s.collides(at0) ==> t.current == at0
            &&& s.collides(at0) && !s.collides(at1) ==> t.current == at1
            &&& s.collides(at0) && s.collides(at1) && !s.collides(at2) ==> t.current == at2
            &&& s.collides(at0) && s.collides(at1) && s.collides(at2) && !s.collides(at3) ==> t.current == at3
            &&& s.collides(at0) && s.collides(at1) && s.collides(at2) && s.collides(at3) && !s.collides(at4)
                ==> t.current == at4
            &&& (!s.collides(at0) || !s.collides(at1) || !s.collides(at2) || !s.collides(at3) || !s.collides(at4))
                ==> t.events.len() > 0 && t.events.last() == GameEvent::Rotate && t.lock_delay_start is None
                && !s.collides(t.current)
            &&& s.collides(at0) && s.collides(at1) && s.collides(at2) && s.collides(at3) && s.collides(at4)
                ==> t.current == s.current
        }),
{
}

/// Scoring a clear of `n` full rows: 100, 300, 500 or 800 points for one to
/// four rows (none for more), times the level before the clear, plus 50
/// times the level for each earlier clear in the running combo; the lines
/// add up, the combo grows by one, the level is one more per ten lines, and a
/// `Clear(n, combo)` event is recorded. Without full rows, only the combo
/// ends.
pub proof fn lemma_clear_scoring(s: GameState)
    requires
        s.board_ok(),
        s.clear_fits(),
    ensures
        ({
            let n = count_full(s.board) as int;
            let t = s.clear_spec();
            let points = if n == 1 { 100int } else if n == 2 { 300int } else if n == 3 { 500int } else if n == 4 { 800int } else { 0int };
            &&& n > 0 ==> t.score == s.score + points * s.level + s.combo * 50 * s.level
            &&& n > 0 ==> t.lines == s.lines + n
            &&& n > 0 ==> t.combo == s.combo + 1
            &&& n > 0 ==> t.level == (s.lines + n) / 10 + 1
            &&& n > 0 ==> t.events.len() > s.events.len() && t.events[s.events.len() as int] == GameEvent::Clear(n as u32, (s.combo + 1) as u32)
            &&& n == 0 ==> t.score == s.score && t.lines == s.lines && t.combo == 0 && t.level == s.level && t.events == s.events
        }),
{
    let n = count_full(s.board) as int;
    let c = s.combo as int;
    let lv = s.level as int;
    assert(c * 50 * lv >= 0) by (nonlinear_arith)
        requires c >= 0, lv >= 0;
    assert(base_points(n) * lv >= 0) by (nonlinear_arith)
        requires base_points(n) >= 0, lv >= 0;
    if c == 0 {
        assert(c * 50 * lv == 0) by (nonlinear_arith)
            requires c == 0;
    }
}

/// Every piece that comes in may be held: bringing in a piece, and so every
/// lock, allows holding again, and a hold right after a lock swaps or puts
/// aside the new falling piece and records a `Hold` event.
pub proof fn lemma_new_piece_may_be_held(s: GameState, i: int, j: int)
    ensures
        s.spawn_spec(i).can_hold,
        s.lock_spec(i).can_hold,
        s.lock_spec(i).hold_spec(j).events.len() > s.lock_spec(i).events.len(),
        s.lock_spec(i).hold_spec(j).events.subrange(0, s.lock_spec(i).events.len() as int + 1) == s.lock_spec(i).events.push(GameEvent::Hold),
        s.lock_spec(i).hold_spec(j).hold == Some(s.lock_spec(i).current),
        !s.lock_spec(i).hold_spec(j).can_hold,
{
    let t = s.lock_spec(i);
    let h = t.hold_spec(j);
    let e = t.events.push(GameEvent::Hold);
    assert(h.events.subrange(0, t.events.len() as int + 1) =~= e);
}

/// Drawing: a square the falling piece covers shows the piece; a square only
/// its ghost covers shows the ghost; any other square shows the board.
pub proof fn lemma_shade_layers(s: GameState, x: int, y: int)
    ensures
        s.current.occupies(x, y) ==> s.shade_at(x, y) == Shade::Piece(s.current.kind),
        !s.current.occupies(x, y) && s.current.occupies(x, y - s.ghost_offset()) ==> s.shade_at(x, y)
            == Shade::Shadow(s.current.kind),
        !s.current.occupies(x, y) && !s.current.occupies(x, y - s.ghost_offset()) ==> (s.shade_at(x, y)
            == Shade::Empty <==> s.board[y][x] == Cell::Empty),
        !s.current.occupies(x, y) && !s.current.occupies(x, y - s.ghost_offset()) && s.board[y][x] != Cell::Empty
            ==> s.shade_at(x, y) == Shade::Block(s.board[y][x]->0),
{
}

/// A move succeeds exactly when the moved piece fits, resting or not; then
/// the piece is at the new spot, and otherwise nothing changes.
pub proof fn lemma_move_succeeds_iff_fits(s: GameState, dx: int, dy: int)
    ensures
        s.move_spec(dx, dy).1 == !s.collides(moved_to(s.current, s.current.x + dx, s.current.y + dy)),
        s.move_spec(dx, dy).1 ==> s.move_spec(dx, dy).0.current == moved_to(s.current, s.current.x + dx, s.current.y + dy),
        s.move_spec(dx, dy).1 ==> s.move_spec(dx, dy).0.board == s.board,
        !s.move_spec(dx, dy).1 ==> s.move_spec(dx, dy).0 == s,
{
}

/// Finesse: turning an S or Z piece the same way as its previous turn (in a
/// run of turns) counts one fault and records `FinesseFault(1)`; for other
/// kinds the run only grows; a turn the other way, or the first turn of a
/// piece, starts a new run of one. The square is not turned at all.
pub proof fn lemma_finesse_counting(s: GameState, clockwise: bool)
    requires
        s.current.kind != PieceKind::O,
        s.turn_fits(clockwise),
    ensures
        ({
            let t = s.rotate_spec(clockwise);
            let repeat = s.last_rotation_was_cw == Some(clockwise) && s.consecutive_rotations > 0;
            let sz = s.current.kind == PieceKind::S || s.current.kind == PieceKind::Z;
            &&& t.last_rotation_was_cw == Some(clockwise)
            &&& repeat ==> t.consecutive_rotations == s.consecutive_rotations + 1
            &&& !repeat ==> t.consecutive_rotations == 1
            &&& repeat && sz ==> t.finesse_faults == s.finesse_faults + 1
                && t.events[s.events.len() as int] == GameEvent::FinesseFault(1)
            &&& !(repeat && sz) ==> t.finesse_faults == s.finesse_faults
            &&& t.board == s.board
            &&& t.score == s.score
        }),
{
}

/// A fresh game: an empty board of the given size, no score, level 1, and
/// two different first pieces at the top of the board, dealt from a fresh
/// bag that keeps the other five kinds.
pub proof fn lemma_new_game_start(width: usize, height: usize, i: int, j: int)
    requires
        0 <= i < 7,
        0 <= j < 6,
    ensures
        ({
            let g = new_game(width, height, i, j);
            &&& g.board.len() == height
            &&& forall|r: int, c: int| 0 <= r < height && 0 <= c < width ==> #[trigger] g.board[r][c] == Cell::Empty
            &&& g.score == 0 && g.lines == 0 && g.level == 1 && g.combo == 0
            &&& !g.game_over && !g.paused && g.can_hold && g.hold is None
            &&& g.current.y == 0 && g.next.y == 0
            &&& g.current.kind != g.next.kind
            &&& g.bag.len() == 5
            &&& !g.bag.contains(g.current.kind) && !g.bag.contains(g.next.kind)
        }),
{
    crate::bag::lemma_all_kinds();
    let b0 = all_kinds();
    crate::bag::lemma_remove_keeps_distinct(b0, i);
    let b1 = b0.remove(i);
    crate::bag::lemma_remove_keeps_distinct(b1, j);
    assert(b1.contains(b1[j]));
}

/// A new piece comes in at column 3, row 0 with the shape of the piece that
/// was next; the game ends exactly when it does not fit there.
pub proof fn lemma_spawn_position(s: GameState, i: int)
    ensures
        s.spawn_spec(i).current.x == 3,
        s.spawn_spec(i).current.y == 0,
        s.spawn_spec(i).current.shape == s.next.shape,
        s.spawn_spec(i).current.kind == s.next.kind,
        s.spawn_spec(i).game_over == (s.game_over || s.collides(moved_to(s.next, 3, 0))),
        s.spawn_spec(i).tick_count == s.tick_count + 1 || s.tick_count == u64::MAX,
        s.spawn_spec(i).board == s.board,
{
}

/// Locking writes the piece's kind into every board square it covers and
/// leaves every other square as it was (before full rows are cleared).
pub proof fn lemma_lock_writes_piece(s: GameState, r: int, c: int)
    requires
        s.board_ok(),
        0 <= r < s.height,
        0 <= c < s.width,
    ensures
        s.current.occupies(c, r) ==> s.place_spec().board[r][c] == Cell::Filled(s.current.kind),
        !s.current.occupies(c, r) ==> s.place_spec().board[r][c] == s.board[r][c],
        s.place_spec().board.len() == s.board.len(),
{
}

/// Commands: left, right and soft drop move the piece by one square (left,
/// right, down), the rotation keys turn it clockwise and counter-clockwise,
/// and pause toggles only while the game runs.
pub proof fn lemma_commands(s: GameState, i: int, j: int)
    ensures
        s.apply_spec(Action::MoveLeft, i, j) == s.move_spec(-1, 0).0,
        s.apply_spec(Action::MoveRight, i, j) == s.move_spec(1, 0).0,
        s.apply_spec(Action::SoftDrop, i, j) == s.move_spec(0, 1).0,
        s.apply_spec(Action::RotateCw, i, j) == s.rotate_spec(true),
        s.apply_spec(Action::RotateCcw, i, j) == s.rotate_spec(false),
        s.apply_spec(Action::Hold, i, j) == s.hold_spec(i),
        !s.game_over ==> s.apply_spec(Action::TogglePause, i, j).paused == !s.paused,
        !s.game_over ==> s.apply_spec(Action::HardDrop, i, j) == s.hard_drop_spec(i),
        s.game_over ==> s.apply_spec(Action::TogglePause, i, j) == s && s.apply_spec(Action::HardDrop, i, j) == s,
{
}

/// Gravity speeds up with the level: 500 ms at level 1, never faster than
/// 50 ms, and a higher level never gives a longer interval.
pub proof fn lemma_tick_interval(s: GameState, t: GameState)
    requires
        1 <= s.level,
        s.level <= t.level,
    ensures
        50 <= s.tick_interval() <= 500,
        s.level == 1 ==> s.tick_interval() == 500,
        s.level >= 10 ==> s.tick_interval() == 50,
        t.tick_interval() <= s.tick_interval(),
{
    let a = s.level as int;
    let b = t.level as int;
    assert(500int / b <= 500int / a) by (nonlinear_arith)
        requires 1 <= a <= b;
    assert(500int / a <= 500) by (nonlinear_arith)
        requires 1 <= a;
    if a >= 10 {
        assert(500int / a <= 50) by (nonlinear_arith)
            requires a >= 10;
    }
    if a == 1 {
        assert(500int / a == 500) by (nonlinear_arith)
            requires a == 1;
    }
}

} // verus!
