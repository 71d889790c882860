use halma::halma::{
    board_state_from_str, board_state_to_string, index_board, player_black_base,
    player_white_base, BoardParseError, BoardState, Coords, Tile,
};

fn start_board() -> BoardState {
    BoardState { black_coords: player_black_base(), white_coords: player_white_base() }
}

const START: &str = "\
1111100000000000
1111100000000000
1111000000000000
1110000000000000
1100000000000000
0000000000000000
0000000000000000
0000000000000000
0000000000000000
0000000000000000
0000000000000000
0000000000000022
0000000000000222
0000000000002222
0000000000022222
0000000000022222
";

#[test]
fn opening_position_as_text() {
    assert_eq!(board_state_to_string(&start_board()), START);
}

#[test]
fn text_is_16_lines_of_16_cells() {
    let text = board_state_to_string(&start_board());
    assert_eq!(text.len(), 272);
    let lines: Vec<&str> = text.split('\n').collect();
    assert_eq!(lines.len(), 17);
    assert_eq!(lines[16], "");
    for line in &lines[..16] {
        assert_eq!(line.len(), 16);
    }
}

#[test]
fn opening_position_from_text() {
    let board = board_state_from_str(&START.to_owned()).unwrap();
    // Pieces come in the order of the text: row by row.
    assert_eq!(board.black_coords, player_black_base());
    assert_eq!(board.white_coords, player_white_base());
}

#[test]
fn text_round_trips() {
    let mut board = start_board();
    board.black_coords[0] = Coords { x: 9, y: 7 };
    board.white_coords[18] = Coords { x: 0, y: 15 };
    board.white_coords[3] = Coords { x: 15, y: 0 };
    let text = board_state_to_string(&board);
    let back = board_state_from_str(&text).unwrap();
    for y in 0..16 {
        for x in 0..16 {
            let c = Coords { x, y };
            assert_eq!(back.tile_at(c), board.tile_at(c));
        }
    }
    assert_eq!(board_state_to_string(&back), text);
}

#[test]
fn a_missing_piece_is_refused() {
    let text = START.replacen('1', "0", 1);
    assert_eq!(board_state_from_str(&text).unwrap_err(), BoardParseError::WrongPieceCount);
    let text = START.replacen("2", "0", 1);
    assert_eq!(board_state_from_str(&text).unwrap_err(), BoardParseError::WrongPieceCount);
    let text = START.replacen("0", "2", 1);
    assert_eq!(board_state_from_str(&text).unwrap_err(), BoardParseError::WrongPieceCount);
    assert_eq!(
        board_state_from_str(&String::new()).unwrap_err(),
        BoardParseError::WrongPieceCount
    );
}

#[test]
fn a_piece_off_the_board_is_refused() {
    // A piece in the seventeenth column.
    let text = START.replacen("1111100000000000\n", "01111000000000001\n", 1);
    assert_eq!(board_state_from_str(&text).unwrap_err(), BoardParseError::PieceOffBoard);
    // A piece in the seventeenth row.
    let text = START.replacen('1', "0", 1) + "1";
    assert_eq!(board_state_from_str(&text).unwrap_err(), BoardParseError::PieceOffBoard);
    // Off the board and a wrong count: the place is named first.
    let text = START.to_owned() + "2";
    assert_eq!(board_state_from_str(&text).unwrap_err(), BoardParseError::PieceOffBoard);
}

#[test]
fn other_characters_only_take_up_a_place() {
    let text = START.replace('0', ".");
    let board = board_state_from_str(&text).unwrap();
    assert_eq!(board.black_coords, player_black_base());
    // Shorter lines are fine, and so is an end without line feed.
    let text = START.replace("0000000000000000\n", "\n");
    let text = text.trim_end().to_owned();
    let board = board_state_from_str(&text).unwrap();
    assert_eq!(board.white_coords, player_white_base());
}

#[test]
fn tiles_are_read_by_row_and_column() {
    let mut grid = [[Tile::Empty; 16]; 16];
    grid[3][5] = Tile::Black;
    grid[15][0] = Tile::White;
    assert_eq!(index_board(&grid, Coords { x: 5, y: 3 }), Tile::Black);
    assert_eq!(index_board(&grid, Coords { x: 3, y: 5 }), Tile::Empty);
    assert_eq!(index_board(&grid, Coords { x: 0, y: 15 }), Tile::White);
}

#[test]
fn tile_at_tells_the_sides_apart() {
    let board = start_board();
    assert_eq!(board.tile_at(Coords { x: 0, y: 0 }), Tile::Black);
    assert_eq!(board.tile_at(Coords { x: 15, y: 15 }), Tile::White);
    assert_eq!(board.tile_at(Coords { x: 8, y: 8 }), Tile::Empty);
    assert!(board.is_tile_empty(Coords { x: 8, y: 8 }));
    assert!(!board.is_tile_empty(Coords { x: 4, y: 1 }));
}

#[test]
fn the_grid_holds_every_piece() {
    let mut state = start_board();
    state.black_coords[4] = Coords { x: 9, y: 2 };
    let grid = state.to_board();
    for y in 0..16 {
        for x in 0..16 {
            let c = Coords { x, y };
            assert_eq!(index_board(&grid, c), state.tile_at(c));
        }
    }
    assert_eq!(grid[2][9], Tile::Black);
    assert_eq!(grid[0][4], Tile::Empty);
    assert_eq!(grid[15][15], Tile::White);
    let pieces = grid.iter().flatten().filter(|t| **t != Tile::Empty).count();
    assert_eq!(pieces, 38);
}
