use textris::bag::PieceBag;
use textris::piece::{PieceKind, Tetromino};

fn filled(p: &Tetromino) -> Vec<(usize, usize)> {
    let mut out = Vec::new();
    for r in 0..4 {
        for c in 0..4 {
            if p.shape[r][c] {
                out.push((r, c));
            }
        }
    }
    out
}

#[test]
fn spawn_pieces_have_their_shapes() {
    assert_eq!(filled(&Tetromino::i()), vec![(1, 0), (1, 1), (1, 2), (1, 3)]);
    assert_eq!(filled(&Tetromino::o()), vec![(0, 0), (0, 1), (1, 0), (1, 1)]);
    assert_eq!(filled(&Tetromino::t()), vec![(0, 1), (1, 0), (1, 1), (1, 2)]);
    assert_eq!(filled(&Tetromino::s()), vec![(0, 1), (0, 2), (1, 0), (1, 1)]);
    assert_eq!(filled(&Tetromino::z()), vec![(0, 0), (0, 1), (1, 1), (1, 2)]);
    assert_eq!(filled(&Tetromino::l()), vec![(0, 2), (1, 0), (1, 1), (1, 2)]);
    assert_eq!(filled(&Tetromino::j()), vec![(0, 0), (1, 0), (1, 1), (1, 2)]);
}

#[test]
fn spawn_positions() {
    assert_eq!((Tetromino::o().x, Tetromino::o().y), (4, 0));
    for p in [Tetromino::i(), Tetromino::t(), Tetromino::s(), Tetromino::z(), Tetromino::l(), Tetromino::j()] {
        assert_eq!((p.x, p.y), (3, 0));
    }
    assert_eq!(Tetromino::o().kind, PieceKind::O);
    assert_eq!(Tetromino::l().kind, PieceKind::L);
}

#[test]
fn of_kind_matches_constructors() {
    let pairs = [
        (PieceKind::I, Tetromino::i()),
        (PieceKind::O, Tetromino::o()),
        (PieceKind::T, Tetromino::t()),
        (PieceKind::S, Tetromino::s()),
        (PieceKind::Z, Tetromino::z()),
        (PieceKind::L, Tetromino::l()),
        (PieceKind::J, Tetromino::j()),
    ];
    for (k, p) in pairs {
        let q = Tetromino::of_kind(k);
        assert_eq!(q.shape, p.shape);
        assert_eq!(q.kind, k);
        assert_eq!((q.x, q.y), (p.x, p.y));
    }
}

#[test]
fn rotating_the_bar_makes_it_vertical() {
    let r = Tetromino::i().rotate();
    assert_eq!(filled(&r), vec![(0, 2), (1, 2), (2, 2), (3, 2)]);
    assert_eq!((r.x, r.y, r.kind), (3, 0, PieceKind::I));
}

#[test]
fn rotating_the_t_clockwise() {
    // The bump on top turns to point right.
    let r = Tetromino::t().rotate();
    assert_eq!(filled(&r), vec![(0, 2), (1, 2), (1, 3), (2, 2)]);
}

#[test]
fn four_turns_give_back_the_piece() {
    for p in [Tetromino::i(), Tetromino::o(), Tetromino::t(), Tetromino::s(), Tetromino::z(), Tetromino::l(), Tetromino::j()] {
        let q = p.rotate().rotate().rotate().rotate();
        assert_eq!(q.shape, p.shape);
        assert_ne!(p.rotate().shape, p.shape);
    }
}

#[test]
fn cells_lists_covered_squares_in_order() {
    let mut t = Tetromino::t();
    t.x = 5;
    t.y = 7;
    assert_eq!(t.cells(), vec![(6, 7), (5, 8), (6, 8), (7, 8)]);
    let mut i = Tetromino::i();
    i.x = -1;
    i.y = -1;
    assert_eq!(i.cells(), vec![(-1, 0), (0, 0), (1, 0), (2, 0)]);
}

#[test]
fn fresh_bag_holds_every_kind_once() {
    let bag = PieceBag::new();
    assert_eq!(
        bag.remaining,
        vec![PieceKind::I, PieceKind::O, PieceKind::T, PieceKind::S, PieceKind::Z, PieceKind::L, PieceKind::J]
    );
    assert_eq!(bag.remaining.len(), 7);
}

#[test]
fn take_removes_one_spot() {
    let mut bag = PieceBag::new();
    assert_eq!(bag.take(3), PieceKind::S);
    assert_eq!(bag.remaining, vec![PieceKind::I, PieceKind::O, PieceKind::T, PieceKind::Z, PieceKind::L, PieceKind::J]);
    assert_eq!(bag.take(0), PieceKind::I);
    assert_eq!(bag.remaining.len(), 5);
}

#[test]
fn a_round_of_seven_draws_deals_every_kind_once() {
    for _ in 0..50 {
        let mut bag = PieceBag::new();
        let mut dealt = Vec::new();
        for _ in 0..7 {
            dealt.push(bag.draw());
        }
        assert_eq!(bag.remaining.len(), 0);
        for k in [PieceKind::I, PieceKind::O, PieceKind::T, PieceKind::S, PieceKind::Z, PieceKind::L, PieceKind::J] {
            assert_eq!(dealt.iter().filter(|d| **d == k).count(), 1);
        }
        // The next draw starts a new round.
        let k = bag.draw();
        assert_eq!(bag.remaining.len(), 6);
        assert!(!bag.remaining.contains(&k));
    }
}
