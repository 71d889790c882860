use halma::decision_tree::{generate_valid_jumps_for_point, DecisionTreeNode};
use halma::halma::{
    directions, player_black_base, player_white_base, BoardState, Coords, GameState, Player,
};

fn start_board() -> BoardState {
    BoardState { black_coords: player_black_base(), white_coords: player_white_base() }
}

fn at(x: i8, y: i8) -> Coords {
    Coords { x, y }
}

/// The index of the piece of `side` that stands differently in `after`.
fn moved_piece(before: &BoardState, after: &BoardState, side: Player) -> usize {
    let (old, new) = match side {
        Player::Black => (before.black_coords, after.black_coords),
        Player::White => (before.white_coords, after.white_coords),
    };
    let changed: Vec<usize> = (0..19).filter(|&i| old[i] != new[i]).collect();
    assert_eq!(changed.len(), 1);
    changed[0]
}

#[test]
fn every_direction_has_its_reverse() {
    let dirs = directions();
    for d in dirs {
        assert!(dirs.contains(&Coords { x: -d.x, y: -d.y }));
        assert!(!(d.x == 0 && d.y == 0));
    }
    for k in 0..8 {
        assert_eq!(dirs[7 - k], Coords { x: -dirs[k].x, y: -dirs[k].y });
    }
}

#[test]
fn in_board_is_the_16_by_16_grid() {
    assert!(at(0, 0).is_in_board());
    assert!(at(15, 15).is_in_board());
    assert!(!at(16, 0).is_in_board());
    assert!(!at(0, 16).is_in_board());
    assert!(!at(-1, 3).is_in_board());
    assert!(!at(3, -1).is_in_board());
}

#[test]
fn a_step_that_stays_on_the_board_can_be_undone() {
    let dirs = directions();
    for y in 0..16 {
        for x in 0..16 {
            for k in 0..8 {
                let to = at(x, y).step(dirs[k]);
                if to.is_in_board() {
                    assert_eq!(to.step(dirs[7 - k]), at(x, y));
                }
            }
        }
    }
}

#[test]
fn other_is_an_involution() {
    assert_eq!(Player::Black.other(), Player::White);
    assert_eq!(Player::White.other(), Player::Black);
    assert_eq!(Player::Black.other().other(), Player::Black);
}

#[test]
fn lone_piece_takes_the_eight_plain_steps() {
    let mut board = start_board();
    board.black_coords[18] = at(8, 8);
    let mut node = DecisionTreeNode::new(board, GameState::Start(Player::Black));
    node.generate_children(Player::Black);
    assert!(node.generated);
    let mut reached = Vec::new();
    for child in &node.children {
        assert_eq!(child.board_state.white_coords, board.white_coords);
        assert!(!child.generated);
        assert!(child.children.is_empty());
        assert_eq!(child.game_state, GameState::Moved(Player::Black));
        if moved_piece(&board, &child.board_state, Player::Black) == 18 {
            reached.push(child.board_state.black_coords[18]);
        }
    }
    let expected: Vec<Coords> = directions().iter().map(|d| at(8 + d.x, 8 + d.y)).collect();
    assert_eq!(reached, expected);
}

#[test]
fn opening_position_has_its_known_moves() {
    let board = start_board();
    let mut node = DecisionTreeNode::new(board, GameState::Start(Player::Black));
    node.generate_children(Player::Black);
    // The first piece in row-major order that can move is the one on (2, 0):
    // it jumps over (3, 1) onto (4, 2), and that is its only move. The next
    // is the one on (3, 0), whose first move is the jump over (4, 0).
    let first = &node.children[0].board_state;
    assert_eq!(moved_piece(&board, first, Player::Black), 2);
    assert_eq!(first.black_coords[2], at(4, 2));
    let second = &node.children[1].board_state;
    assert_eq!(moved_piece(&board, second, Player::Black), 3);
    assert_eq!(second.black_coords[3], at(5, 0));
    for child in &node.children {
        let i = moved_piece(&board, &child.board_state, Player::Black);
        let to = child.board_state.black_coords[i];
        assert!(to.is_in_board());
        assert!(board.is_tile_empty(to));
    }
}

#[test]
fn pieces_are_taken_in_row_major_order() {
    let mut board = start_board();
    // The last piece of the list stands before all others in row-major order.
    board.black_coords[18] = at(8, 0);
    board.black_coords[0] = at(1, 4 + 4);
    let mut node = DecisionTreeNode::new(board, GameState::Start(Player::Black));
    node.generate_children(Player::Black);
    let mut order = Vec::new();
    for child in &node.children {
        let i = moved_piece(&board, &child.board_state, Player::Black);
        let from = board.black_coords[i];
        order.push(from.y as i32 * 16 + from.x as i32);
    }
    let mut sorted = order.clone();
    sorted.sort();
    assert_eq!(order, sorted);
}

#[test]
fn jump_and_second_jump_are_both_children() {
    let mut board = start_board();
    // A black piece on (6, 6), a piece to jump over on (7, 6), and from the
    // landing cell (8, 6) another piece to jump over on (8, 7).
    board.black_coords[18] = at(6, 6);
    board.black_coords[17] = at(7, 6);
    board.black_coords[16] = at(8, 7);
    let mut node = DecisionTreeNode::new(board, GameState::Start(Player::Black));
    node.generate_children(Player::Black);
    let mut reached = Vec::new();
    for child in &node.children {
        if moved_piece(&board, &child.board_state, Player::Black) == 18 {
            reached.push(child.board_state.black_coords[18]);
        }
    }
    assert!(reached.contains(&at(8, 6)));
    assert!(reached.contains(&at(8, 8)));
    // The cell of the piece that is jumped over is no destination.
    assert!(!reached.contains(&at(7, 6)));
    // Six plain steps, one step blocked by the piece on (7, 6) gives the
    // jump chain, and the step to (7, 7) is free.
    assert_eq!(
        reached,
        vec![
            at(5, 5),
            at(5, 6),
            at(6, 5),
            at(7, 5),
            at(5, 7),
            at(6, 7),
            at(8, 6),
            at(8, 8),
            at(7, 7),
        ]
    );
}

#[test]
fn jump_chain_lists_each_landing_cell_once() {
    let mut board = start_board();
    // Pieces round the square (3, 9) .. (5, 11), so that (5, 11) can be
    // reached on two ways from (3, 9), and one on (2, 9) to jump back over.
    board.black_coords[18] = at(2, 9);
    board.black_coords[17] = at(4, 9);
    board.black_coords[16] = at(5, 10);
    board.black_coords[15] = at(3, 10);
    board.black_coords[14] = at(4, 11);
    let mut jump_points = vec![at(3, 9)];
    generate_valid_jumps_for_point(&board, &mut jump_points, at(3, 9), at(1, 0));
    for (i, a) in jump_points.iter().enumerate() {
        assert!(a.is_in_board());
        assert!(board.is_tile_empty(*a));
        for b in &jump_points[i + 1..] {
            assert_ne!(a, b);
        }
    }
    assert_eq!(jump_points, vec![at(3, 9), at(1, 9), at(3, 11), at(5, 11), at(5, 9)]);
}

#[test]
fn a_chain_does_not_go_on_in_the_direction_it_came_by() {
    let mut board = start_board();
    board.black_coords[18] = at(6, 8);
    board.black_coords[17] = at(8, 8);
    // From (7, 8), reached in direction (1, 0), the jump over (8, 8) to
    // (9, 8) goes on in the same direction and is left out.
    let mut jump_points = vec![at(7, 8)];
    generate_valid_jumps_for_point(&board, &mut jump_points, at(7, 8), at(1, 0));
    assert_eq!(jump_points, vec![at(7, 8), at(5, 8)]);
    // Reached in another direction, both jumps are found.
    let mut other = vec![at(7, 8)];
    generate_valid_jumps_for_point(&board, &mut other, at(7, 8), at(0, 1));
    assert_eq!(other, vec![at(7, 8), at(5, 8), at(9, 8)]);
}

#[test]
fn piece_in_its_target_zone_stays_in_it() {
    let mut board = start_board();
    // White has left its corner; a black piece stands in it, on (14, 11).
    for i in 0..19 {
        board.white_coords[i] = at(i as i8 % 16, 8 + i as i8 / 16);
    }
    board.black_coords[18] = at(14, 11);
    let zone = player_white_base();
    let mut node = DecisionTreeNode::new(board, GameState::Start(Player::Black));
    node.generate_children(Player::Black);
    let mut reached = Vec::new();
    for child in &node.children {
        if moved_piece(&board, &child.board_state, Player::Black) == 18 {
            let to = child.board_state.black_coords[18];
            assert!(zone.contains(&to));
            reached.push(to);
        }
    }
    assert_eq!(reached, vec![at(13, 12), at(14, 12), at(15, 11), at(15, 12)]);
}

#[test]
fn win_detection_asks_for_all_19_pieces() {
    let mut board = start_board();
    assert!(!DecisionTreeNode::is_game_won(&board, Player::Black));
    assert!(!DecisionTreeNode::is_game_won(&board, Player::White));
    board.black_coords = player_white_base();
    board.white_coords = player_black_base();
    assert!(DecisionTreeNode::is_game_won(&board, Player::Black));
    assert!(DecisionTreeNode::is_game_won(&board, Player::White));
    board.black_coords[7] = at(8, 8);
    assert!(!DecisionTreeNode::is_game_won(&board, Player::Black));
    assert!(DecisionTreeNode::is_game_won(&board, Player::White));
}

#[test]
fn the_move_that_fills_the_zone_is_won() {
    let mut board = start_board();
    board.black_coords = player_white_base();
    for i in 0..19 {
        board.white_coords[i] = at(i as i8 % 16, 6 + i as i8 / 16);
    }
    // One black piece is a step away from the last free cell of the zone.
    board.black_coords[0] = at(13, 11);
    let mut node = DecisionTreeNode::new(board, GameState::Start(Player::Black));
    node.generate_children(Player::Black);
    let won: Vec<&DecisionTreeNode> = node
        .children
        .iter()
        .filter(|child| child.game_state == GameState::Won(Player::Black))
        .collect();
    assert_eq!(won.len(), 1);
    assert_eq!(won[0].board_state.black_coords[0], at(14, 11));
    for child in &node.children {
        let expected = if DecisionTreeNode::is_game_won(&child.board_state, Player::Black) {
            GameState::Won(Player::Black)
        } else {
            GameState::Moved(Player::Black)
        };
        assert_eq!(child.game_state, expected);
    }
}

#[test]
fn generating_again_gives_the_same_children() {
    let board = start_board();
    let mut node = DecisionTreeNode::new(board, GameState::Start(Player::Black));
    node.generate_children(Player::Black);
    let first: Vec<BoardState> = node.children.iter().map(|c| c.board_state).collect();
    node.generate_children(Player::Black);
    let second: Vec<BoardState> = node.children.iter().map(|c| c.board_state).collect();
    assert_eq!(first.len(), second.len());
    for (a, b) in first.iter().zip(second.iter()) {
        assert_eq!(a.black_coords, b.black_coords);
        assert_eq!(a.white_coords, b.white_coords);
    }
}

#[test]
fn move_tile_moves_one_piece() {
    let mut board = start_board();
    DecisionTreeNode::move_tile(&mut board, 3, at(9, 9), Player::White);
    let start = start_board();
    assert_eq!(board.black_coords, start.black_coords);
    for i in 0..19 {
        if i == 3 {
            assert_eq!(board.white_coords[i], at(9, 9));
        } else {
            assert_eq!(board.white_coords[i], start.white_coords[i]);
        }
    }
}

#[test]
fn clone_copies_the_whole_tree() {
    let board = start_board();
    let mut node = DecisionTreeNode::new(board, GameState::Start(Player::Black));
    node.generate_children(Player::Black);
    node.children[0].generate_children(Player::White);
    let copy = node.clone();
    assert_eq!(copy.generated, node.generated);
    assert_eq!(copy.children.len(), node.children.len());
    assert_eq!(copy.children[0].children.len(), node.children[0].children.len());
    assert_eq!(
        copy.children[0].children[3].board_state.white_coords,
        node.children[0].children[3].board_state.white_coords
    );
}

#[test]
fn two_directions_may_lead_to_the_same_cell() {
    let mut board = start_board();
    // Round the piece on (2, 2) stand (3, 2) and (2, 3); with (4, 3) and
    // (3, 4) taken as well, the jumps to the right and downwards both lead
    // on to (4, 4).
    board.black_coords[0] = at(4, 3);
    board.black_coords[1] = at(3, 4);
    assert_eq!(board.black_coords[12], at(2, 2));
    let mut node = DecisionTreeNode::new(board, GameState::Start(Player::Black));
    node.generate_children(Player::Black);
    let mut reached = Vec::new();
    for child in &node.children {
        if moved_piece(&board, &child.board_state, Player::Black) == 12 {
            reached.push(child.board_state.black_coords[12]);
        }
    }
    assert_eq!(reached.iter().filter(|c| **c == at(4, 4)).count(), 2);
    // Within the exploration of one direction no cell comes twice.
    let mut right = vec![at(4, 2)];
    generate_valid_jumps_for_point(&board, &mut right, at(4, 2), at(1, 0));
    assert_eq!(right, vec![at(4, 2), at(4, 4), at(2, 4)]);
    let mut down = vec![at(2, 4)];
    generate_valid_jumps_for_point(&board, &mut down, at(2, 4), at(0, 1));
    assert_eq!(down, vec![at(2, 4), at(4, 4), at(4, 2)]);
}
