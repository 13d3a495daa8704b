use textris::board::{empty_row, is_row_full, remove_full_rows, Cell};
use textris::piece::PieceKind;

fn row(bits: &str) -> Vec<Cell> {
    bits.chars().map(|c| if c == '#' { Cell::Filled(PieceKind::T) } else { Cell::Empty }).collect()
}

#[test]
fn empty_row_has_width_cells() {
    assert_eq!(empty_row(3), vec![Cell::Empty; 3]);
    assert!(empty_row(0).is_empty());
}

#[test]
fn row_fullness() {
    assert!(is_row_full(&row("###")));
    assert!(!is_row_full(&row("#.#")));
    assert!(!is_row_full(&row("...")));
}

#[test]
fn full_rows_go_and_the_rest_moves_down() {
    let mut board = vec![row("#.."), row("###"), row(".#."), row("###"), row("..#")];
    let removed = remove_full_rows(&mut board, 3);
    assert_eq!(removed, 2);
    assert_eq!(board, vec![row("..."), row("..."), row("#.."), row(".#."), row("..#")]);
}

#[test]
fn no_full_rows_means_no_change() {
    let mut board = vec![row("#.."), row(".#.")];
    assert_eq!(remove_full_rows(&mut board, 3), 0);
    assert_eq!(board, vec![row("#.."), row(".#.")]);
}

#[test]
fn adjacent_full_rows_all_go() {
    let mut board = vec![row("#."), row("##"), row("##"), row("##")];
    assert_eq!(remove_full_rows(&mut board, 2), 3);
    assert_eq!(board, vec![row(".."), row(".."), row(".."), row("#.")]);
}
