use halma::decision_tree::DecisionTreeNode;
use halma::halma::{
    player_black_base, player_white_base, BoardState, Coords, GameState, Player,
};
use halma::heuristics::{Heuristic, Score};
use halma::minimax::{
    alfa_beta, alfa_beta_inner, alfa_beta_shared, expand, minimax, minimax_inner,
    minimax_shared, next_player, out_of_rounds, play_round, reroot, round_of, LogLevel,
    MinMaxResult, Progress, RoundState,
};

fn start_board() -> BoardState {
    BoardState { black_coords: player_black_base(), white_coords: player_white_base() }
}

fn at(x: i8, y: i8) -> Coords {
    Coords { x, y }
}

/// How far the pieces of the evaluating side have come, counted in steps
/// along both axes. It counts how often it was asked.
struct Advance {
    asked: u64,
}

fn advance_of(board: &BoardState, player: Player) -> Score {
    let mut sum: Score = 0;
    match player {
        Player::Black => {
            for c in board.black_coords {
                sum += c.x as Score + c.y as Score;
            }
        }
        Player::White => {
            for c in board.white_coords {
                sum += 30 - c.x as Score - c.y as Score;
            }
        }
    }
    sum
}

impl Heuristic for Advance {
    fn evaluate(&mut self, board_state: &BoardState, evaluating_player: Player, _: u32) -> Score {
        self.asked += 1;
        advance_of(board_state, evaluating_player)
    }

    fn name(&self) -> String {
        "advance".to_owned()
    }
}

/// A scrambled but fixed value for each position, to give the search
/// trees without order in their values.
struct Scramble;

impl Heuristic for Scramble {
    fn evaluate(&mut self, board_state: &BoardState, _: Player, round_number: u32) -> Score {
        let mut h: u32 = 2166136261 ^ round_number;
        for c in board_state.black_coords.iter().chain(board_state.white_coords.iter()) {
            h = (h ^ c.x as u32).wrapping_mul(16777619);
            h = (h ^ c.y as u32).wrapping_mul(16777619);
        }
        (h % 201) as Score - 100
    }

    fn name(&self) -> String {
        "scramble".to_owned()
    }
}

/// Every position is worth the same.
struct Flat;

impl Heuristic for Flat {
    fn evaluate(&mut self, _: &BoardState, _: Player, _: u32) -> Score {
        0
    }

    fn name(&self) -> String {
        "flat".to_owned()
    }
}

/// Every position is worth the greatest number there is. It counts how
/// often it was asked.
struct Extreme {
    asked: u64,
}

impl Heuristic for Extreme {
    fn evaluate(&mut self, _: &BoardState, _: Player, _: u32) -> Score {
        self.asked += 1;
        Score::MAX
    }

    fn name(&self) -> String {
        "extreme".to_owned()
    }
}

/// An evaluator that must not be asked.
struct Never;

impl Heuristic for Never {
    fn evaluate(&mut self, _: &BoardState, _: Player, _: u32) -> Score {
        panic!("the evaluator was asked");
    }

    fn name(&self) -> String {
        "never".to_owned()
    }
}

/// Records for which side and round it was asked.
struct Recorder {
    seen: Vec<(Player, u32)>,
}

impl Heuristic for Recorder {
    fn evaluate(&mut self, board_state: &BoardState, evaluating_player: Player, round: u32) -> Score {
        if self.seen.last() != Some(&(evaluating_player, round)) {
            self.seen.push((evaluating_player, round));
        }
        advance_of(board_state, evaluating_player)
    }

    fn name(&self) -> String {
        "recorder".to_owned()
    }
}

/// The plain search written out once more, on values only.
fn reference(node: &DecisionTreeNode, depth: u32, maximizing: bool, side: Player) -> Option<Score> {
    if let GameState::Won(_) = node.game_state {
        return None;
    }
    if depth == 0 {
        return Some(advance_of(&node.board_state, side));
    }
    let mut copy = DecisionTreeNode::new(node.board_state, node.game_state);
    copy.generate_children(next_player(node.game_state));
    let mut best = if maximizing { Score::MIN } else { Score::MAX };
    for child in &copy.children {
        let value = reference(child, depth - 1, !maximizing, side)?;
        if (maximizing && value > best) || (!maximizing && value < best) {
            best = value;
        }
    }
    Some(best)
}

fn value_of(result: &MinMaxResult) -> Score {
    match result {
        MinMaxResult::Eval(value, _) => *value,
        other => panic!("no value: {:?}", other),
    }
}

fn child_of(result: &MinMaxResult) -> usize {
    match result {
        MinMaxResult::Eval(_, index) => *index,
        other => panic!("no choice: {:?}", other),
    }
}

/// White cannot move: its piece on (15, 15) is shut in, and its other
/// pieces fill the zone they race toward but for the cell of a black piece.
fn shut_in() -> BoardState {
    let mut board = start_board();
    let zone = player_black_base();
    for i in 1..19 {
        board.white_coords[i - 1] = zone[i];
    }
    board.white_coords[18] = at(15, 15);
    board.black_coords[0] = at(0, 0);
    let guards = [at(14, 15), at(14, 14), at(15, 14), at(13, 15), at(13, 13), at(15, 13)];
    for (i, g) in guards.iter().enumerate() {
        board.black_coords[1 + i] = *g;
    }
    for i in 7..19 {
        board.black_coords[i] = at(i as i8 - 7, 8);
    }
    board
}

/// Black is one step from filling its zone.
fn nearly_won() -> BoardState {
    let mut board = start_board();
    board.black_coords = player_white_base();
    for i in 0..19 {
        board.white_coords[i] = at(i as i8 % 16, 6 + i as i8 / 16);
    }
    board.black_coords[0] = at(13, 11);
    board
}

#[test]
fn depth_zero_scores_the_node_itself() {
    let mut node = DecisionTreeNode::new(start_board(), GameState::Start(Player::Black));
    let mut h = Advance { asked: 0 };
    let r = minimax_inner(&mut node, 0, &mut h, 7, true, Player::Black, 0);
    assert!(matches!(r, MinMaxResult::Eval(60, 7)));
    assert!(!node.generated);
    let r = alfa_beta_inner(&mut node, 0, &mut h, 5, false, Score::MIN, Score::MAX, Player::White, 0);
    assert!(matches!(r, MinMaxResult::Eval(60, 5)));
    assert_eq!(h.asked, 2);
}

#[test]
fn one_ply_takes_the_first_of_the_best_children() {
    let mut node = DecisionTreeNode::new(start_board(), GameState::Start(Player::Black));
    let mut h = Advance { asked: 0 };
    let r = minimax_inner(&mut node, 1, &mut h, 0, true, Player::Black, 0);
    assert!(matches!(r, MinMaxResult::Eval(64, 0)), "{:?}", r);
    assert!(node.generated);
    assert_eq!(h.asked as usize, node.children.len());
    let r = minimax_inner(&mut node, 1, &mut h, 0, false, Player::Black, 0);
    assert!(matches!(r, MinMaxResult::Eval(60, 11)), "{:?}", r);
    // Ties keep the child that was found first.
    let values: Vec<Score> =
        node.children.iter().map(|c| advance_of(&c.board_state, Player::Black)).collect();
    assert_eq!(values.iter().position(|v| *v == 64), Some(0));
    assert!(values.iter().filter(|v| **v == 64).count() > 1);
    assert_eq!(values.iter().position(|v| *v == 60), Some(11));
}

#[test]
fn plain_search_agrees_with_its_definition() {
    for depth in 1..=3 {
        let mut node = DecisionTreeNode::new(start_board(), GameState::Start(Player::Black));
        let mut h = Advance { asked: 0 };
        let r = minimax_inner(&mut node, depth, &mut h, 0, true, Player::Black, 0);
        let expected = reference(&node, depth, true, Player::Black).unwrap();
        assert_eq!(value_of(&r), expected);
    }
}

#[test]
fn pruning_finds_the_value_of_the_plain_search() {
    let mut boards = vec![start_board()];
    let mut mixed = start_board();
    mixed.black_coords[18] = at(7, 7);
    mixed.black_coords[17] = at(8, 7);
    mixed.white_coords[0] = at(9, 7);
    mixed.white_coords[1] = at(8, 8);
    boards.push(mixed);
    for board in boards {
        for side in [Player::Black, Player::White] {
            for depth in 1..=3 {
                let mut plain = DecisionTreeNode::new(board, GameState::Start(side));
                let mut pruned = DecisionTreeNode::new(board, GameState::Start(side));
                let mut a = Advance { asked: 0 };
                let mut b = Advance { asked: 0 };
                let r = minimax_inner(&mut plain, depth, &mut a, 0, true, side, 0);
                let s = alfa_beta_inner(
                    &mut pruned,
                    depth,
                    &mut b,
                    0,
                    true,
                    Score::MIN,
                    Score::MAX,
                    side,
                    0,
                );
                assert_eq!(value_of(&r), value_of(&s));
                assert_eq!(child_of(&r), child_of(&s));
                assert!(b.asked <= a.asked);
                if depth >= 2 {
                    assert!(b.asked < a.asked);
                }
                let r = minimax_inner(&mut plain, depth, &mut Scramble, 0, true, side, 3);
                let s = alfa_beta_inner(
                    &mut pruned,
                    depth,
                    &mut Scramble,
                    0,
                    true,
                    Score::MIN,
                    Score::MAX,
                    side,
                    3,
                );
                assert_eq!(value_of(&r), value_of(&s));
                assert_eq!(child_of(&r), child_of(&s));
            }
        }
    }
}

#[test]
fn narrow_bounds_bound_the_value() {
    let mut node = DecisionTreeNode::new(start_board(), GameState::Start(Player::Black));
    let truth = value_of(&minimax_inner(&mut node, 2, &mut Scramble, 0, true, Player::Black, 0));
    for (alfa, beta) in [(-100, -50), (-20, 20), (50, 100), (truth - 1, truth + 1), (truth, truth + 1)] {
        let mut pruned = DecisionTreeNode::new(start_board(), GameState::Start(Player::Black));
        let got = value_of(&alfa_beta_inner(
            &mut pruned,
            2,
            &mut Scramble,
            0,
            true,
            alfa,
            beta,
            Player::Black,
            0,
        ));
        if got <= alfa {
            assert!(truth <= got);
        } else if got >= beta {
            assert!(truth >= got);
        } else {
            assert_eq!(truth, got);
        }
    }
}

#[test]
fn a_won_node_ends_the_search_at_any_depth() {
    let mut board = start_board();
    board.black_coords = player_white_base();
    board.white_coords = player_black_base();
    for depth in 0..3 {
        let mut node = DecisionTreeNode::new(board, GameState::Won(Player::Black));
        let r = minimax_inner(&mut node, depth, &mut Never, 0, true, Player::Black, 0);
        match r {
            MinMaxResult::Leaf(leaf, left) => {
                assert_eq!(left, depth);
                assert_eq!(leaf.game_state, GameState::Won(Player::Black));
                assert_eq!(leaf.board_state.black_coords, board.black_coords);
            }
            other => panic!("{:?}", other),
        }
        assert!(!node.generated);
        let r = alfa_beta_inner(
            &mut node,
            depth,
            &mut Never,
            0,
            true,
            Score::MIN,
            Score::MAX,
            Player::Black,
            0,
        );
        assert!(matches!(r, MinMaxResult::Leaf(_, left) if left == depth));
    }
}

#[test]
fn a_win_below_ends_the_search_with_the_depth_that_was_left() {
    for depth in 1..=2 {
        let mut node = DecisionTreeNode::new(nearly_won(), GameState::Start(Player::Black));
        let mut h = Advance { asked: 0 };
        let r = minimax_inner(&mut node, depth, &mut h, 0, true, Player::Black, 0);
        match r {
            MinMaxResult::Leaf(leaf, left) => {
                assert_eq!(left, depth - 1);
                assert_eq!(leaf.game_state, GameState::Won(Player::Black));
                assert_eq!(leaf.board_state.black_coords[0], at(14, 11));
                assert!(!leaf.generated);
            }
            other => panic!("{:?}", other),
        }
    }
    // Three plies deep the search comes first upon a win at the bottom of
    // the tree, below a child that does not win itself, and ends there.
    let mut node = DecisionTreeNode::new(nearly_won(), GameState::Start(Player::Black));
    let mut h = Advance { asked: 0 };
    let r = minimax_inner(&mut node, 3, &mut h, 0, true, Player::Black, 0);
    match r {
        MinMaxResult::Leaf(leaf, left) => {
            assert_eq!(left, 0);
            assert_eq!(leaf.game_state, GameState::Won(Player::Black));
        }
        other => panic!("{:?}", other),
    }
    assert!(node.children[0].generated);
    assert_ne!(node.children[0].game_state, GameState::Won(Player::Black));
}

#[test]
fn a_position_without_a_move_is_a_dead_end() {
    let mut node = DecisionTreeNode::new(shut_in(), GameState::Moved(Player::Black));
    let r = minimax_inner(&mut node, 2, &mut Never, 0, true, Player::White, 0);
    match r {
        MinMaxResult::DeadEnd(stuck) => {
            assert_eq!(stuck.board_state.white_coords, shut_in().white_coords);
            assert_eq!(stuck.game_state, GameState::Moved(Player::Black));
            assert!(stuck.generated);
            assert!(stuck.children.is_empty());
        }
        other => panic!("{:?}", other),
    }
}

#[test]
fn a_dead_end_below_the_root_ends_the_game() {
    // Black has moves; White has none after the first of them. A search of
    // two plies comes upon that in the first round.
    let mut node = DecisionTreeNode::new(shut_in(), GameState::Start(Player::Black));
    let out = minimax(&mut node, 2, (&mut Never, &mut Never), None);
    let stuck = out.unwrap_err().node;
    assert_eq!(stuck.game_state, GameState::Moved(Player::Black));
    assert_eq!(stuck.board_state.white_coords, shut_in().white_coords);
    assert!(stuck.generated && stuck.children.is_empty());
    assert_eq!(node.game_state, GameState::Start(Player::Black));
    // Searches of one ply find it in the second round, at the root.
    let mut node = DecisionTreeNode::new(shut_in(), GameState::Start(Player::Black));
    let mut a = Advance { asked: 0 };
    let out = alfa_beta(&mut node, 1, (&mut a, &mut Never), Some(4));
    let stuck = out.unwrap_err().node;
    assert_eq!(stuck.game_state, GameState::Moved(Player::Black));
    assert_eq!(node.game_state, GameState::Moved(Player::Black));
    assert_eq!(node.board_state.black_coords, stuck.board_state.black_coords);
    // Within a limit of one round nothing of it is seen.
    let mut node = DecisionTreeNode::new(shut_in(), GameState::Start(Player::Black));
    let out = minimax(&mut node, 1, (&mut a, &mut Never), Some(1));
    assert!(matches!(out, Ok(None)));
}

#[test]
fn next_player_follows_the_phase() {
    assert_eq!(next_player(GameState::Start(Player::White)), Player::White);
    assert_eq!(next_player(GameState::Start(Player::Black)), Player::Black);
    assert_eq!(next_player(GameState::Moved(Player::White)), Player::Black);
    assert_eq!(next_player(GameState::Moved(Player::Black)), Player::White);
}

#[test]
fn expand_generates_once() {
    let mut node = DecisionTreeNode::new(start_board(), GameState::Moved(Player::Black));
    expand(&mut node);
    assert!(node.generated);
    let count = node.children.len();
    assert!(count > 0);
    assert_eq!(node.children[0].game_state, GameState::Moved(Player::White));
    node.children[0].generated = true;
    expand(&mut node);
    assert_eq!(node.children.len(), count);
    assert!(node.children[0].generated);
}

#[test]
fn limit_of_no_rounds_leaves_the_tree_alone() {
    let mut node = DecisionTreeNode::new(start_board(), GameState::Start(Player::Black));
    let out = minimax(&mut node, 3, (&mut Never, &mut Never), Some(0));
    assert!(matches!(out, Ok(None)));
    assert!(!node.generated);
    assert!(node.children.is_empty());
    assert_eq!(node.game_state, GameState::Start(Player::Black));
    let out = alfa_beta(&mut node, 3, (&mut Never, &mut Never), Some(0));
    assert!(matches!(out, Ok(None)));
    assert!(!node.generated);
}

#[test]
fn the_limit_ends_a_game_without_winner() {
    let mut node = DecisionTreeNode::new(start_board(), GameState::Start(Player::Black));
    let mut a = Advance { asked: 0 };
    let mut b = Advance { asked: 0 };
    let out = minimax(&mut node, 1, (&mut a, &mut b), Some(3));
    assert!(matches!(out, Ok(None)));
    // Three searches were made, by Black, White and Black, and the first
    // two choices were played: the game stands on the root of the last
    // search, which has been generated.
    assert_eq!(node.game_state, GameState::Moved(Player::White));
    assert_eq!(advance_of(&node.board_state, Player::Black), 60 + 4);
    assert_eq!(advance_of(&node.board_state, Player::White), 60 + 4);
    assert!(node.generated);
    assert!(a.asked > 0 && b.asked > 0);
}

#[test]
fn the_last_choice_within_the_limit_is_not_played() {
    for pruned in [false, true] {
        // One round: the start is searched and stays the root.
        let mut node = DecisionTreeNode::new(start_board(), GameState::Start(Player::Black));
        let mut a = Advance { asked: 0 };
        let mut b = Advance { asked: 0 };
        let out = if pruned {
            alfa_beta(&mut node, 2, (&mut a, &mut b), Some(1))
        } else {
            minimax(&mut node, 2, (&mut a, &mut b), Some(1))
        };
        assert!(matches!(out, Ok(None)));
        assert_eq!(node.game_state, GameState::Start(Player::Black));
        assert_eq!(node.board_state.black_coords, start_board().black_coords);
        assert!(node.generated);
        assert!(a.asked > 0);
        assert_eq!(b.asked, 0);
        // Two rounds: Black's first choice is played and White's is not.
        let mut node = DecisionTreeNode::new(start_board(), GameState::Start(Player::Black));
        let mut zero = Flat;
        let mut other = Flat;
        let out = if pruned {
            alfa_beta(&mut node, 2, (&mut zero, &mut other), Some(2))
        } else {
            minimax(&mut node, 1, (&mut zero, &mut other), Some(2))
        };
        assert!(matches!(out, Ok(None)));
        assert_eq!(node.game_state, GameState::Moved(Player::Black));
        let mut expected = start_board();
        expected.black_coords[2] = at(4, 2);
        assert_eq!(node.board_state.black_coords, expected.black_coords);
        assert_eq!(node.board_state.white_coords, start_board().white_coords);
        assert!(node.generated);
    }
}

#[test]
fn searches_of_no_ply_play_one_round_at_most() {
    let mut node = DecisionTreeNode::new(start_board(), GameState::Start(Player::Black));
    let mut a = Advance { asked: 0 };
    let out = minimax(&mut node, 0, (&mut a, &mut Never), Some(0));
    assert!(matches!(out, Ok(None)));
    assert_eq!(a.asked, 0);
    let out = minimax(&mut node, 0, (&mut a, &mut Never), Some(1));
    assert!(matches!(out, Ok(None)));
    assert_eq!(a.asked, 1);
    assert!(!node.generated);
    assert_eq!(node.game_state, GameState::Start(Player::Black));
    let out = alfa_beta_shared(&mut node, 0, &mut a, Some(1));
    assert!(matches!(out, Ok(None)));
    assert_eq!(a.asked, 2);
}

#[test]
fn a_win_is_reported_with_plies_and_rounds() {
    for depth in 1..=2 {
        let mut node = DecisionTreeNode::new(nearly_won(), GameState::Start(Player::Black));
        let mut a = Advance { asked: 0 };
        let mut b = Advance { asked: 0 };
        let out = minimax(&mut node, depth, (&mut a, &mut b), None).unwrap();
        let (won, plies, rounds) = out.unwrap();
        assert_eq!(won.game_state, GameState::Won(Player::Black));
        assert!(DecisionTreeNode::is_game_won(&won.board_state, Player::Black));
        assert_eq!(plies, 1);
        assert_eq!(rounds, 1);
    }
    // White moves first and cannot win at once; Black wins in the second
    // round of a game with searches of one ply.
    let mut node = DecisionTreeNode::new(nearly_won(), GameState::Start(Player::White));
    let mut a = Advance { asked: 0 };
    let mut b = Advance { asked: 0 };
    let (won, plies, rounds) =
        alfa_beta(&mut node, 1, (&mut a, &mut b), Some(2)).unwrap().unwrap();
    assert_eq!(won.game_state, GameState::Won(Player::Black));
    assert_eq!((plies, rounds), (1, 2));
    assert_eq!(node.game_state, GameState::Moved(Player::White));
    // With two plies the first round sees the win already.
    let mut node = DecisionTreeNode::new(nearly_won(), GameState::Start(Player::White));
    let (_, plies, rounds) = minimax(&mut node, 2, (&mut a, &mut b), Some(1)).unwrap().unwrap();
    assert_eq!((plies, rounds), (2, 1));
}

#[test]
fn each_side_is_served_by_its_own_evaluator() {
    let mut node = DecisionTreeNode::new(start_board(), GameState::Start(Player::White));
    let mut first = Recorder { seen: Vec::new() };
    let mut second = Recorder { seen: Vec::new() };
    let out = minimax(&mut node, 1, (&mut first, &mut second), Some(5));
    assert!(matches!(out, Ok(None)));
    assert_eq!(first.seen, vec![(Player::White, 0), (Player::White, 2), (Player::White, 4)]);
    assert_eq!(second.seen, vec![(Player::Black, 1), (Player::Black, 3)]);
}

#[test]
fn equal_games_take_the_same_course() {
    for pruned in [false, true] {
        let mut courses = Vec::new();
        for _ in 0..2 {
            let mut course = Vec::new();
            for limit in 0..5 {
                let mut node =
                    DecisionTreeNode::new(start_board(), GameState::Start(Player::Black));
                let out = if pruned {
                    alfa_beta(&mut node, 2, (&mut Scramble, &mut Scramble), Some(limit))
                } else {
                    minimax(&mut node, 2, (&mut Scramble, &mut Scramble), Some(limit))
                };
                assert!(matches!(out, Ok(None)));
                course.push((node.board_state.black_coords, node.board_state.white_coords));
            }
            courses.push(course);
        }
        assert_eq!(courses[0], courses[1]);
        // No choice is played within a limit of one round; each round more
        // moves one piece of the side whose turn it is.
        let course = &courses[0];
        assert_eq!(course[0], course[1]);
        for round in 2..5 {
            let (black_before, white_before) = course[round - 1];
            let (black_after, white_after) = course[round];
            if round % 2 == 0 {
                assert_ne!(black_before, black_after);
                assert_eq!(white_before, white_after);
            } else {
                assert_eq!(black_before, black_after);
                assert_ne!(white_before, white_after);
            }
        }
    }
}

#[test]
fn pruned_and_plain_games_agree_while_no_end_is_in_sight() {
    let mut plain = DecisionTreeNode::new(start_board(), GameState::Start(Player::Black));
    let mut pruned = DecisionTreeNode::new(start_board(), GameState::Start(Player::Black));
    let a = minimax(&mut plain, 2, (&mut Scramble, &mut Scramble), Some(4));
    let b = alfa_beta(&mut pruned, 2, (&mut Scramble, &mut Scramble), Some(4));
    assert!(matches!(a, Ok(None)));
    assert!(matches!(b, Ok(None)));
    assert_eq!(plain.board_state.black_coords, pruned.board_state.black_coords);
    assert_eq!(plain.board_state.white_coords, pruned.board_state.white_coords);
    assert_eq!(plain.game_state, pruned.game_state);
}

#[test]
fn reroot_keeps_the_chosen_subtree() {
    let mut node = DecisionTreeNode::new(start_board(), GameState::Start(Player::Black));
    let mut h = Advance { asked: 0 };
    let r = round_of(&mut node, 2, &mut h, Player::Black, 0, false);
    let index = match r {
        MinMaxResult::Eval(_, index) => index,
        other => panic!("{:?}", other),
    };
    let chosen = node.children[index].board_state.black_coords;
    let grandchildren = node.children[index].children.len();
    assert!(grandchildren > 0);
    reroot(&mut node, index);
    assert_eq!(node.board_state.black_coords, chosen);
    assert_eq!(node.children.len(), grandchildren);
    assert_eq!(node.game_state, GameState::Moved(Player::Black));
    assert!(node.generated);
}

#[test]
fn one_evaluator_can_serve_both_sides() {
    let mut node = DecisionTreeNode::new(start_board(), GameState::Start(Player::White));
    let mut shared = Recorder { seen: Vec::new() };
    let out = minimax_shared(&mut node, 1, &mut shared, Some(4));
    assert!(matches!(out, Ok(None)));
    assert_eq!(
        shared.seen,
        vec![(Player::White, 0), (Player::Black, 1), (Player::White, 2), (Player::Black, 3)]
    );
    // The game is the one that two evaluators of the same kind play.
    let mut pair = DecisionTreeNode::new(start_board(), GameState::Start(Player::White));
    let out = alfa_beta(&mut pair, 1, (&mut Advance { asked: 0 }, &mut Advance { asked: 0 }), Some(4));
    assert!(matches!(out, Ok(None)));
    assert_eq!(node.board_state.black_coords, pair.board_state.black_coords);
    assert_eq!(node.board_state.white_coords, pair.board_state.white_coords);
    let mut pruned = DecisionTreeNode::new(start_board(), GameState::Start(Player::White));
    let out = alfa_beta_shared(&mut pruned, 1, &mut Advance { asked: 0 }, Some(4));
    assert!(matches!(out, Ok(None)));
    assert_eq!(pruned.board_state.white_coords, node.board_state.white_coords);
    let mut won = DecisionTreeNode::new(nearly_won(), GameState::Start(Player::Black));
    let (_, plies, rounds) =
        minimax_shared(&mut won, 2, &mut Advance { asked: 0 }, None).unwrap().unwrap();
    assert_eq!((plies, rounds), (1, 1));
}

#[test]
fn log_levels_say_what_they_show() {
    assert!(!LogLevel::Quiet.shows_rounds());
    assert!(!LogLevel::Quiet.shows_positions());
    assert!(LogLevel::RoundNum.shows_rounds());
    assert!(!LogLevel::RoundNum.shows_positions());
    assert!(LogLevel::All.shows_rounds());
    assert!(LogLevel::All.shows_positions());
}

#[test]
fn a_round_searches_and_the_next_one_moves() {
    let mut node = DecisionTreeNode::new(start_board(), GameState::Start(Player::Black));
    let mut first = Recorder { seen: Vec::new() };
    let mut second = Recorder { seen: Vec::new() };
    let progress = Progress { rounds: 0, state: RoundState::AwaitingSearch };
    let progress =
        play_round(&mut node, 1, (&mut first, &mut second), Player::Black, None, progress, false);
    assert_eq!(progress.rounds, 1);
    assert!(matches!(progress.state, RoundState::Evaluated(0, 64)), "{:?}", progress);
    // The choice is pending: the root is still the start.
    assert_eq!(node.game_state, GameState::Start(Player::Black));
    assert!(node.generated);
    assert_eq!(first.seen, vec![(Player::Black, 0)]);
    assert!(second.seen.is_empty());
    // The next round plays it and searches for White, with the other
    // evaluator.
    let progress =
        play_round(&mut node, 1, (&mut first, &mut second), Player::Black, None, progress, true);
    assert_eq!(progress.rounds, 2);
    assert!(matches!(progress.state, RoundState::Evaluated(_, 64)), "{:?}", progress);
    assert_eq!(node.game_state, GameState::Moved(Player::Black));
    assert_eq!(node.board_state.black_coords[2], at(4, 2));
    assert_eq!(second.seen, vec![(Player::White, 1)]);
    assert_eq!(first.seen, vec![(Player::Black, 0)]);
    // At the limit nothing is done.
    let progress =
        play_round(&mut node, 1, (&mut Never, &mut Never), Player::Black, Some(2), progress, true);
    assert_eq!(progress.rounds, 2);
    assert!(matches!(progress.state, RoundState::OutOfRounds));
    assert_eq!(node.game_state, GameState::Moved(Player::Black));
}

#[test]
fn a_round_that_comes_upon_an_ending_leaves_the_root() {
    let mut node = DecisionTreeNode::new(nearly_won(), GameState::Start(Player::Black));
    let mut a = Advance { asked: 0 };
    let mut b = Advance { asked: 0 };
    let progress = Progress { rounds: 0, state: RoundState::AwaitingSearch };
    let progress = play_round(&mut node, 2, (&mut a, &mut b), Player::Black, None, progress, true);
    assert_eq!(progress.rounds, 1);
    match progress.state {
        RoundState::Terminal(won, plies) => {
            assert_eq!(won.game_state, GameState::Won(Player::Black));
            assert_eq!(plies, 1);
        }
        other => panic!("{:?}", other),
    }
    assert_eq!(node.game_state, GameState::Start(Player::Black));
    assert_eq!(node.board_state.black_coords, nearly_won().black_coords);
    let mut stuck = DecisionTreeNode::new(shut_in(), GameState::Start(Player::Black));
    let progress = Progress { rounds: 0, state: RoundState::AwaitingSearch };
    let progress =
        play_round(&mut stuck, 2, (&mut Never, &mut Never), Player::Black, None, progress, false);
    assert!(matches!(progress.state, RoundState::DeadEnd(_)));
    assert_eq!(stuck.game_state, GameState::Start(Player::Black));
}

#[test]
fn the_limit_is_reached_after_as_many_searches() {
    assert!(out_of_rounds(Some(0), 0));
    assert!(!out_of_rounds(Some(3), 2));
    assert!(out_of_rounds(Some(3), 3));
    assert!(out_of_rounds(Some(3), 4));
    assert!(!out_of_rounds(None, 0));
    assert!(!out_of_rounds(None, u32::MAX - 1));
    assert!(out_of_rounds(None, u32::MAX));
}

#[test]
fn a_win_below_the_root_ends_the_first_round_whatever_the_scores() {
    let mut board = start_board();
    board.black_coords = player_white_base();
    board.white_coords = player_black_base();
    board.black_coords[0] = at(13, 11);
    let mut node = DecisionTreeNode::new(board, GameState::Start(Player::Black));
    let (won, plies, rounds) =
        minimax(&mut node, 1, (&mut Scramble, &mut Never), None).unwrap().unwrap();
    assert_eq!(won.board_state.black_coords, player_white_base());
    assert_eq!(won.game_state, GameState::Won(Player::Black));
    assert_eq!((plies, rounds), (1, 1));
}

#[test]
fn pruning_does_not_pass_over_a_win_below_the_root() {
    let mut board = start_board();
    board.black_coords = player_white_base();
    board.white_coords = player_black_base();
    board.black_coords[0] = at(13, 11);
    // Even scores as great as can be do not cut the choice at the root
    // short: the won position, the sixth that follows, is found after five
    // questions.
    let mut extreme = Extreme { asked: 0 };
    let mut node = DecisionTreeNode::new(board, GameState::Start(Player::Black));
    let (won, plies, rounds) =
        alfa_beta(&mut node, 1, (&mut extreme, &mut Never), None).unwrap().unwrap();
    assert_eq!(won.board_state.black_coords, player_white_base());
    assert_eq!(won.board_state.white_coords, player_black_base());
    assert_eq!(won.game_state, GameState::Won(Player::Black));
    assert_eq!((plies, rounds), (1, 1));
    assert_eq!(extreme.asked, 5);
    assert_eq!(node.children[5].game_state, GameState::Won(Player::Black));
}

#[test]
fn scores_are_kept_off_the_least_and_the_greatest_number() {
    let mut node = DecisionTreeNode::new(start_board(), GameState::Start(Player::Black));
    let mut extreme = Extreme { asked: 0 };
    let r = minimax_inner(&mut node, 0, &mut extreme, 3, true, Player::Black, 0);
    assert!(matches!(r, MinMaxResult::Eval(v, 3) if v == Score::MAX - 1), "{:?}", r);
    let r = alfa_beta_inner(&mut node, 2, &mut extreme, 0, true, Score::MIN, Score::MAX, Player::Black, 0);
    assert!(matches!(r, MinMaxResult::Eval(v, 0) if v == Score::MAX - 1), "{:?}", r);
    assert_eq!(halma::minimax::clip(Score::MIN), Score::MIN + 1);
    assert_eq!(halma::minimax::clip(Score::MAX), Score::MAX - 1);
    assert_eq!(halma::minimax::clip(-100), -100);
    assert_eq!(halma::minimax::clip(0), 0);
}
