use halma::halma::{
    player_black_base, player_white_base, BoardState, Coords, PlayerCoords,
};
use halma::heuristics::{discourage_edges, dont_block_other_player_in_base};

fn at(x: i8, y: i8) -> Coords {
    Coords { x, y }
}

fn count(piece: Coords, base: &PlayerCoords, pieces: &PlayerCoords) -> u8 {
    dont_block_other_player_in_base(&piece, base, pieces)
}

#[test]
fn neighbours_in_their_base_are_counted() {
    let board = BoardState { black_coords: player_black_base(), white_coords: player_white_base() };
    let base = player_white_base();
    // A piece in the middle of the board has no neighbour in the base.
    assert_eq!(count(at(8, 8), &base, &board.white_coords), 0);
    // On (13, 11) the neighbours (14, 11), (14, 12) and (13, 12) are white
    // pieces in their base; (12, 12) and the cells above are not.
    assert_eq!(count(at(13, 11), &base, &board.white_coords), 3);
    // In the middle of the base all eight neighbours count.
    assert_eq!(count(at(14, 14), &base, &board.white_coords), 8);
    // In the corner three neighbours are on the board.
    assert_eq!(count(at(15, 15), &base, &board.white_coords), 3);
}

#[test]
fn neighbours_that_left_their_base_are_not_counted() {
    let base = player_white_base();
    let mut pieces = player_white_base();
    // The white piece of (14, 11) stands on (12, 11) now: a neighbour of
    // (13, 11) still, but out of its base.
    pieces[0] = at(12, 11);
    assert_eq!(count(at(13, 11), &base, &pieces), 2);
    // Cells of the base without a piece do not count either.
    pieces[3] = at(0, 8);
    assert_eq!(count(at(13, 11), &base, &pieces), 1);
}

#[test]
fn first_and_last_row_are_edges() {
    assert!(discourage_edges(&at(7, 0)));
    assert!(discourage_edges(&at(0, 15)));
    assert!(!discourage_edges(&at(0, 1)));
    assert!(!discourage_edges(&at(15, 14)));
    assert!(!discourage_edges(&at(0, 7)));
}
