use textris::board::Cell;
use textris::control::{Action, Shade};
use textris::game::{Game, GameEvent};
use textris::piece::{PieceKind, Tetromino};

/// A 10x20 game whose falling piece is `p` (at its spawn spot).
fn game_with(p: Tetromino) -> Game {
    let mut g = Game::new(10, 20);
    g.current = p;
    g
}

fn fill_row_except(g: &mut Game, row: usize, gaps: &[usize]) {
    for x in 0..g.width {
        g.board[row][x] = if gaps.contains(&x) { Cell::Empty } else { Cell::Filled(PieceKind::J) };
    }
}

#[test]
fn new_game_starts_empty() {
    let g = Game::new(11, 20);
    assert_eq!(g.board.len(), 20);
    assert!(g.board.iter().all(|r| r.len() == 11 && r.iter().all(|c| *c == Cell::Empty)));
    assert_eq!((g.score, g.lines, g.level, g.combo), (0, 0, 1, 0));
    assert!(!g.game_over && !g.paused && g.can_hold);
    assert!(g.hold.is_none());
    assert_eq!(g.bag.remaining.len(), 5);
    assert!(!g.bag.remaining.contains(&g.current.kind));
    assert!(!g.bag.remaining.contains(&g.next.kind));
    assert_ne!(g.current.kind, g.next.kind);
    assert!(g.events.is_empty());
}

#[test]
fn collision_with_walls_floor_and_blocks() {
    let mut g = game_with(Tetromino::o());
    let mut p = Tetromino::o();
    p.x = -1;
    assert!(g.collision(&p));
    p.x = 8;
    assert!(!g.collision(&p));
    p.x = 9;
    assert!(g.collision(&p));
    p.x = 0;
    p.y = 18;
    assert!(!g.collision(&p));
    p.y = 19;
    assert!(g.collision(&p));
    p.y = -1;
    assert!(!g.collision(&p));
    g.board[5][1] = Cell::Filled(PieceKind::T);
    p.y = 4;
    assert!(g.collision(&p));
    p.y = 5;
    assert!(g.collision(&p));
    p.y = 6;
    assert!(!g.collision(&p));
}

#[test]
fn moving_sideways_stops_at_the_wall() {
    let mut g = game_with(Tetromino::o());
    // O starts at column 4; it covers columns 4 and 5.
    let mut moves = 0;
    while g.move_piece(-1, 0) {
        moves += 1;
    }
    assert_eq!(moves, 4);
    assert_eq!(g.current.x, 0);
    assert_eq!(g.events.iter().filter(|e| **e == GameEvent::Move).count(), 4);
    assert!(!g.move_piece(-1, 0));
    assert_eq!(g.current.x, 0);
}

#[test]
fn moving_down_reports_no_event() {
    let mut g = game_with(Tetromino::t());
    g.lock_delay_start = Some(7);
    assert!(g.move_piece(0, 1));
    assert_eq!(g.current.y, 1);
    assert!(g.events.is_empty());
    assert_eq!(g.lock_delay_start, None);
}

#[test]
fn move_then_opposite_move_restores_the_piece() {
    let mut g = game_with(Tetromino::l());
    assert!(g.move_piece(1, 0));
    assert!(g.move_piece(-1, 0));
    assert_eq!((g.current.x, g.current.y), (3, 0));
    assert_eq!(g.current.shape, Tetromino::l().shape);
}

#[test]
fn ghost_offset_on_empty_board() {
    let g = game_with(Tetromino::i());
    // The bar is in row 1 of its box, so the box can go down to row 18.
    assert_eq!(g.get_ghost_y_offset(), 18);
    let g = game_with(Tetromino::t());
    assert_eq!(g.get_ghost_y_offset(), 18);
}

#[test]
fn ghost_offset_over_blocks() {
    let mut g = game_with(Tetromino::o());
    g.board[10][4] = Cell::Filled(PieceKind::Z);
    // The square (columns 4-5, rows 0-1 of its box) rests on row 10: box at row 8.
    assert_eq!(g.get_ghost_y_offset(), 8);
}

#[test]
fn hard_drop_lands_where_the_ghost_is() {
    let mut g = game_with(Tetromino::o());
    g.board[10][4] = Cell::Filled(PieceKind::Z);
    let offset = g.get_ghost_y_offset();
    let kind = g.current.kind;
    g.hard_drop();
    let row = (0 + offset) as usize;
    assert_eq!(g.board[row][4], Cell::Filled(kind));
    assert_eq!(g.board[row][5], Cell::Filled(kind));
    assert_eq!(g.board[row + 1][4], Cell::Filled(kind));
    assert_eq!(g.board[row + 1][5], Cell::Filled(kind));
    assert_eq!(g.events.first(), Some(&GameEvent::Lock));
    assert_eq!(g.tick_count, 1);
    assert_eq!((g.current.x, g.current.y), (3, 0));
}

#[test]
fn single_line_clear_scores_100() {
    let mut g = game_with(Tetromino::i());
    fill_row_except(&mut g, 19, &[3, 4, 5, 6]);
    g.board[18][0] = Cell::Filled(PieceKind::T);
    g.hard_drop();
    assert_eq!((g.lines, g.score, g.combo, g.level), (1, 100, 1, 1));
    assert_eq!(&g.events[..2], &[GameEvent::Lock, GameEvent::Clear(1, 1)]);
    // The row above moved down; a fresh empty row came in at the top.
    assert_eq!(g.board[19][0], Cell::Filled(PieceKind::T));
    assert!(g.board[19][1..].iter().all(|c| *c == Cell::Empty));
    assert!(g.board[0].iter().all(|c| *c == Cell::Empty));
}

#[test]
fn four_lines_at_once_score_800() {
    let mut g = game_with(Tetromino::i().rotate());
    // The vertical bar is in column 2 of its box; the box is at column 3.
    for row in 16..20 {
        fill_row_except(&mut g, row, &[5]);
    }
    g.hard_drop();
    assert_eq!((g.lines, g.score, g.combo), (4, 800, 1));
    assert!(g.events.contains(&GameEvent::Clear(4, 1)));
    assert!(g.board.iter().all(|r| r.iter().all(|c| *c == Cell::Empty)));
}

#[test]
fn consecutive_clears_earn_a_combo_bonus() {
    let mut g = game_with(Tetromino::i());
    fill_row_except(&mut g, 19, &[3, 4, 5, 6]);
    g.hard_drop();
    assert_eq!(g.score, 100);
    g.current = Tetromino::i();
    fill_row_except(&mut g, 19, &[3, 4, 5, 6]);
    g.hard_drop();
    // 100 for the line and (2 - 1) * 50 * level 1 for the combo.
    assert_eq!((g.score, g.combo, g.lines), (250, 2, 2));
    assert!(g.events.contains(&GameEvent::Clear(1, 2)));
    // A lock without a clear ends the combo.
    g.current = Tetromino::o();
    g.hard_drop();
    assert_eq!((g.score, g.combo), (250, 0));
}

#[test]
fn tenth_line_raises_the_level() {
    let mut g = game_with(Tetromino::i());
    g.lines = 9;
    g.level = 1;
    fill_row_except(&mut g, 19, &[3, 4, 5, 6]);
    g.hard_drop();
    assert_eq!((g.lines, g.level, g.score), (10, 2, 100));
    assert_eq!(&g.events[..3], &[GameEvent::Lock, GameEvent::Clear(1, 1), GameEvent::LevelUp]);
}

#[test]
fn score_uses_the_level_before_the_clear() {
    let mut g = game_with(Tetromino::i());
    g.lines = 19;
    g.level = 2;
    g.combo = 2;
    fill_row_except(&mut g, 19, &[3, 4, 5, 6]);
    g.hard_drop();
    // 100 * 2 + (3 - 1) * 50 * 2.
    assert_eq!((g.score, g.level, g.combo), (400, 3, 3));
}

#[test]
fn the_square_does_not_rotate() {
    let mut g = game_with(Tetromino::o());
    g.rotate(true);
    assert_eq!(g.current.shape, Tetromino::o().shape);
    assert!(g.events.is_empty());
    assert_eq!(g.last_rotation_was_cw, None);
}

#[test]
fn rotation_turns_the_piece() {
    let mut g = game_with(Tetromino::t());
    g.rotate(true);
    assert_eq!(g.current.shape, Tetromino::t().rotate().shape);
    assert_eq!(g.events, vec![GameEvent::Rotate]);
    g.rotate(false);
    assert_eq!(g.current.shape, Tetromino::t().shape);
}

#[test]
fn second_same_way_turn_of_s_is_a_finesse_fault() {
    let mut g = game_with(Tetromino::s());
    g.current.y = 5;
    g.rotate(true);
    assert_eq!(g.finesse_faults, 0);
    g.rotate(true);
    assert_eq!(g.finesse_faults, 1);
    assert_eq!(g.consecutive_rotations, 2);
    assert!(g.events.contains(&GameEvent::FinesseFault(1)));
    // Turning back the other way starts a new run.
    g.rotate(false);
    assert_eq!(g.consecutive_rotations, 1);
    assert_eq!(g.finesse_faults, 1);
}

#[test]
fn same_way_turns_of_t_are_no_fault() {
    let mut g = game_with(Tetromino::t());
    g.current.y = 5;
    g.rotate(true);
    g.rotate(true);
    g.rotate(true);
    assert_eq!(g.finesse_faults, 0);
    assert_eq!(g.consecutive_rotations, 3);
}

#[test]
fn wall_kick_shifts_the_piece_off_the_wall() {
    let mut g = game_with(Tetromino::i().rotate());
    // Vertical bar in column 2 of its box; push it to the right wall.
    while g.move_piece(1, 0) {}
    assert_eq!(g.current.x, 7);
    g.current.y = 5;
    g.rotate(true);
    // Turned flat (row 2 of the box, columns 0-3) it would cover columns 7-10;
    // the kick by -1 puts it at columns 6-9.
    assert_eq!(g.current.x, 6);
    assert_eq!(g.events.last(), Some(&GameEvent::Rotate));
}

#[test]
fn rotation_that_cannot_fit_leaves_the_piece() {
    let mut g = game_with(Tetromino::i());
    g.current.y = 10;
    // Block the column the bar would turn into, and all kick spots, leaving
    // the row of the bar free and one gap per row so no row is full.
    for row in [10, 12, 13] {
        fill_row_except(&mut g, row, &[9]);
    }
    let before = g.current.shape;
    g.rotate(true);
    assert_eq!(g.current.shape, before);
    assert!(!g.events.contains(&GameEvent::Rotate));
}

#[test]
fn hold_once_per_piece() {
    let mut g = game_with(Tetromino::t());
    let next_kind = g.next.kind;
    g.hold_piece();
    assert_eq!(g.hold.map(|h| h.kind), Some(PieceKind::T));
    assert_eq!(g.current.kind, next_kind);
    assert!(!g.can_hold);
    assert_eq!(g.events, vec![GameEvent::Hold]);
    let current = g.current.kind;
    g.hold_piece();
    assert_eq!(g.current.kind, current);
    assert_eq!(g.hold.map(|h| h.kind), Some(PieceKind::T));
    assert_eq!(g.events.len(), 1);
}

#[test]
fn hold_swaps_back_at_the_spawn_spot() {
    let mut g = game_with(Tetromino::t());
    g.hold = Some(Tetromino::l());
    g.current.x = 0;
    g.current.y = 6;
    g.hold_piece();
    assert_eq!(g.current.kind, PieceKind::L);
    assert_eq!((g.current.x, g.current.y), (3, 0));
    let held = g.hold.unwrap();
    assert_eq!((held.kind, held.x, held.y), (PieceKind::T, 0, 6));
    assert_eq!(g.tick_count, 0);
}

#[test]
fn tick_moves_down_then_waits_then_locks() {
    let mut g = game_with(Tetromino::o());
    g.current.y = 17;
    g.tick(1000);
    assert_eq!(g.current.y, 18);
    assert_eq!(g.lock_delay_start, None);
    g.tick(1100);
    assert_eq!(g.lock_delay_start, Some(1100));
    g.tick(1600);
    assert_eq!(g.current.y, 18);
    assert_eq!(g.board[19][4], Cell::Empty);
    g.tick(1601);
    assert_eq!(g.board[19][4], Cell::Filled(PieceKind::O));
    assert_eq!(g.lock_delay_start, None);
}

#[test]
fn tick_does_nothing_when_paused_or_over() {
    let mut g = game_with(Tetromino::o());
    g.paused = true;
    g.tick(5);
    assert_eq!(g.current.y, 0);
    g.paused = false;
    g.game_over = true;
    g.tick(5);
    assert_eq!(g.current.y, 0);
}

#[test]
fn spawning_into_blocks_ends_the_game() {
    let mut g = game_with(Tetromino::o());
    for row in 0..2 {
        fill_row_except(&mut g, row, &[9]);
    }
    g.current.x = 8;
    g.current.y = 5;
    g.spawn_piece();
    assert!(g.game_over);
    assert_eq!(g.events.last(), Some(&GameEvent::GameOver));
    assert_eq!((g.current.x, g.current.y), (3, 0));
}

#[test]
fn clear_lines_without_full_rows_ends_combo() {
    let mut g = game_with(Tetromino::o());
    g.combo = 3;
    g.clear_lines();
    assert_eq!(g.combo, 0);
    assert_eq!(g.score, 0);
}

#[test]
fn restart_keeps_the_board_size() {
    let mut g = Game::new(7, 9);
    g.score = 55;
    g.board[3][3] = Cell::Filled(PieceKind::I);
    g.restart();
    assert_eq!((g.width, g.height, g.score), (7, 9, 0));
    assert!(g.board.iter().all(|r| r.iter().all(|c| *c == Cell::Empty)));
}

#[test]
fn take_events_hands_them_over_once() {
    let mut g = game_with(Tetromino::t());
    g.move_piece(1, 0);
    g.rotate(true);
    assert_eq!(g.take_events(), vec![GameEvent::Move, GameEvent::Rotate]);
    assert!(g.take_events().is_empty());
}

#[test]
fn tick_interval_by_level() {
    let mut g = Game::new(10, 20);
    assert_eq!(g.tick_interval_ms(), 500);
    g.level = 5;
    assert_eq!(g.tick_interval_ms(), 100);
    g.level = 10;
    assert_eq!(g.tick_interval_ms(), 50);
    g.level = 20;
    assert_eq!(g.tick_interval_ms(), 50);
    g.level = 3;
    assert_eq!(g.tick_interval_ms(), 166);
}

#[test]
fn pause_and_drop_are_ignored_after_game_over() {
    let mut g = game_with(Tetromino::t());
    g.apply(Action::TogglePause);
    assert!(g.paused);
    g.apply(Action::MoveLeft);
    assert_eq!(g.current.x, 2);
    g.apply(Action::TogglePause);
    assert!(!g.paused);
    g.game_over = true;
    g.apply(Action::TogglePause);
    assert!(!g.paused);
    g.apply(Action::HardDrop);
    assert_eq!(g.current.y, 0);
    g.apply(Action::SoftDrop);
    assert_eq!(g.current.y, 1);
    g.apply(Action::Restart);
    assert!(!g.game_over);
}

#[test]
fn actions_reach_their_operations() {
    let mut g = game_with(Tetromino::t());
    g.apply(Action::MoveRight);
    assert_eq!(g.current.x, 4);
    g.apply(Action::RotateCw);
    assert_eq!(g.current.shape, Tetromino::t().rotate().shape);
    g.apply(Action::RotateCcw);
    assert_eq!(g.current.shape, Tetromino::t().shape);
    g.apply(Action::Hold);
    assert_eq!(g.hold.map(|h| h.kind), Some(PieceKind::T));
    g.apply(Action::HardDrop);
    assert_eq!(g.tick_count, 2);
}

#[test]
fn shades_show_piece_ghost_and_blocks() {
    let mut g = game_with(Tetromino::o());
    g.board[19][0] = Cell::Filled(PieceKind::Z);
    let grid = g.shades();
    assert_eq!(grid.len(), 20);
    assert!(grid.iter().all(|r| r.len() == 10));
    assert_eq!(grid[0][4], Shade::Piece(PieceKind::O));
    assert_eq!(grid[1][5], Shade::Piece(PieceKind::O));
    assert_eq!(grid[18][4], Shade::Shadow(PieceKind::O));
    assert_eq!(grid[19][5], Shade::Shadow(PieceKind::O));
    assert_eq!(grid[19][0], Shade::Block(PieceKind::Z));
    assert_eq!(grid[10][0], Shade::Empty);
}

#[test]
fn overflow_checks() {
    let mut g = game_with(Tetromino::i());
    assert!(g.allows(Action::HardDrop) && g.allows_tick(0));
    // No line would clear: a score at the very top does not matter.
    g.score = u32::MAX;
    assert!(g.allows(Action::HardDrop));
    // With a line to clear, 100 more points must fit.
    fill_row_except(&mut g, 19, &[3, 4, 5, 6]);
    assert!(!g.allows(Action::HardDrop));
    g.score = u32::MAX - 100;
    assert!(g.allows(Action::HardDrop));
    g.combo = 1;
    assert!(!g.allows(Action::HardDrop));
    g.score = u32::MAX - 150;
    assert!(g.allows(Action::HardDrop));
    assert!(g.allows(Action::MoveLeft));
    g.game_over = true;
    assert!(g.allows(Action::HardDrop));
}

#[test]
fn tick_overflow_check_only_when_it_locks() {
    let mut g = game_with(Tetromino::o());
    g.tick_count = u64::MAX;
    // Moving down adds nothing.
    assert!(g.allows_tick(0));
    g.current.y = 18;
    // Resting: the first tick only starts the delay.
    assert!(g.allows_tick(0));
    g.lock_delay_start = Some(0);
    assert!(g.allows_tick(500));
    assert!(!g.allows_tick(501));
    g.paused = true;
    assert!(g.allows_tick(501));
}

#[test]
fn rotation_overflow_check() {
    let mut g = game_with(Tetromino::s());
    g.finesse_faults = u32::MAX;
    // A first turn adds to no counter.
    assert!(g.allows(Action::RotateCw));
    g.last_rotation_was_cw = Some(true);
    g.consecutive_rotations = 1;
    assert!(!g.allows(Action::RotateCw));
    assert!(g.allows(Action::RotateCcw));
    g.current = Tetromino::t();
    assert!(g.allows(Action::RotateCw));
    g.consecutive_rotations = u32::MAX;
    assert!(!g.allows(Action::RotateCw));
    g.current = Tetromino::o();
    assert!(g.allows(Action::RotateCw));
}

#[test]
fn hold_overflow_check() {
    let mut g = game_with(Tetromino::t());
    g.tick_count = u64::MAX;
    assert!(!g.allows(Action::Hold));
    g.hold = Some(Tetromino::l());
    assert!(g.allows(Action::Hold));
}

#[test]
fn lines_when_locked_and_landing() {
    let mut g = game_with(Tetromino::i());
    fill_row_except(&mut g, 19, &[3, 4, 5, 6]);
    fill_row_except(&mut g, 18, &[0]);
    assert_eq!(g.full_rows_with(&g.current), 0);
    let mut p = Tetromino::i();
    p.y = 18;
    assert_eq!(g.full_rows_with(&p), 1);
    // Row 18 blocks the bar (row 1 of its box): the box rests at row 16.
    assert_eq!(g.landing_from(&g.current, 1), 16);
    assert_eq!(g.landing_from(&g.current, 0), 16);
    assert_eq!(g.landing_from(&g.current, 17), 16);
    assert!(g.ghost_fits());
    assert!(g.lock_fits());
}

#[test]
fn clear_of_many_rows_scores_nothing_extra() {
    // Six full rows at once (only possible on a board set up by hand): the
    // base score table gives nothing for more than four.
    let mut g = game_with(Tetromino::o());
    for row in 14..20 {
        fill_row_except(&mut g, row, &[]);
    }
    g.clear_lines();
    assert_eq!((g.lines, g.score, g.combo, g.level), (6, 0, 1, 1));
    assert_eq!(g.events, vec![GameEvent::Clear(6, 1)]);
}

#[test]
fn game_over_lasts_until_restart() {
    let mut g = game_with(Tetromino::o());
    g.game_over = true;
    for a in [Action::MoveLeft, Action::SoftDrop, Action::RotateCw, Action::Hold, Action::HardDrop, Action::TogglePause] {
        g.apply(a);
        assert!(g.game_over);
    }
    g.tick(10_000);
    assert!(g.game_over);
    g.apply(Action::Restart);
    assert!(!g.game_over);
}
