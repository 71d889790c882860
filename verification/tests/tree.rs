use halma::decision_tree::DecisionTreeNode;
use halma::graph::{generate_tree, TreeGraph};
use halma::halma::{
    player_black_base, player_white_base, BoardState, Coords, GameState, Player,
};
use petgraph::graph::{EdgeIndex, Graph, NodeIndex};

fn start_board() -> BoardState {
    BoardState { black_coords: player_black_base(), white_coords: player_white_base() }
}

fn nearly_won() -> BoardState {
    let mut board = start_board();
    board.black_coords = player_white_base();
    for i in 0..19 {
        board.white_coords[i] = Coords { x: i as i8 % 16, y: 6 + i as i8 / 16 };
    }
    board.black_coords[0] = Coords { x: 13, y: 11 };
    board
}

fn children_of(board: BoardState, phase: GameState, mover: Player) -> Vec<DecisionTreeNode> {
    let mut node = DecisionTreeNode::new(board, phase);
    node.generate_children(mover);
    node.children
}

fn same_position(a: &DecisionTreeNode, b: &DecisionTreeNode) -> bool {
    a.board_state.black_coords == b.board_state.black_coords
        && a.board_state.white_coords == b.board_state.white_coords
        && a.game_state == b.game_state
}

#[test]
fn tree_without_graph_is_complete_to_the_depth() {
    let mut graph: Option<TreeGraph> = None;
    let tree = generate_tree(Some(1), start_board(), &mut graph).unwrap();
    assert!(graph.is_none());
    // White waits at the start: the children of the root are Black's moves.
    assert_eq!(tree.game_state, GameState::Start(Player::White));
    assert!(tree.generated);
    let first = children_of(start_board(), GameState::Start(Player::Black), Player::Black);
    assert_eq!(tree.children.len(), first.len());
    for (child, expected) in tree.children.iter().zip(first.iter()) {
        assert!(same_position(child, expected));
        assert!(child.generated);
        let second = children_of(child.board_state, child.game_state, Player::White);
        assert_eq!(child.children.len(), second.len());
        for (grandchild, expected) in child.children.iter().zip(second.iter()) {
            assert!(same_position(grandchild, expected));
            assert!(!grandchild.generated);
            assert!(grandchild.children.is_empty());
        }
    }
}

#[test]
fn depth_zero_generates_the_root_only() {
    let mut graph: Option<TreeGraph> = Some(Graph::new());
    let tree = generate_tree(Some(0), start_board(), &mut graph).unwrap();
    let graph = graph.unwrap();
    assert!(tree.generated);
    assert!(tree.children.iter().all(|c| !c.generated));
    assert_eq!(graph.node_count(), 1 + tree.children.len());
    assert_eq!(graph.edge_count(), tree.children.len());
    let root = graph.node_weight(NodeIndex::new(0)).unwrap();
    assert_eq!(root.game_state, GameState::Start(Player::White));
    assert!(!root.generated);
    assert!(root.children.is_empty());
    for (i, child) in tree.children.iter().enumerate() {
        let recorded = graph.node_weight(NodeIndex::new(i + 1)).unwrap();
        assert!(same_position(recorded, child));
        assert!(!recorded.generated);
        let (from, to) = graph.edge_endpoints(EdgeIndex::new(i)).unwrap();
        assert_eq!((from.index(), to.index()), (0, i + 1));
        assert_eq!(*graph.edge_weight(EdgeIndex::new(i)).unwrap(), 0);
    }
}

#[test]
fn graph_records_the_tree_depth_first() {
    let mut graph: Option<TreeGraph> = Some(Graph::new());
    let tree = generate_tree(Some(1), start_board(), &mut graph).unwrap();
    let graph = graph.unwrap();
    let below: usize = tree.children.iter().map(|c| c.children.len()).sum();
    assert_eq!(graph.node_count(), 1 + tree.children.len() + below);
    assert_eq!(graph.edge_count(), tree.children.len() + below);
    // Walk the tree as it was built and find every node and edge in place.
    let mut next = 1;
    for child in &tree.children {
        let own = next;
        assert!(same_position(graph.node_weight(NodeIndex::new(own)).unwrap(), child));
        let (from, to) = graph.edge_endpoints(EdgeIndex::new(own - 1)).unwrap();
        assert_eq!((from.index(), to.index()), (0, own));
        assert_eq!(*graph.edge_weight(EdgeIndex::new(own - 1)).unwrap(), 0);
        next += 1;
        for grandchild in &child.children {
            let recorded = graph.node_weight(NodeIndex::new(next)).unwrap();
            assert!(same_position(recorded, grandchild));
            let (from, to) = graph.edge_endpoints(EdgeIndex::new(next - 1)).unwrap();
            assert_eq!((from.index(), to.index()), (own, next));
            assert_eq!(*graph.edge_weight(EdgeIndex::new(next - 1)).unwrap(), 1);
            next += 1;
        }
    }
    assert_eq!(next, graph.node_count());
}

#[test]
fn graph_keeps_what_it_held() {
    let mut held = Graph::new();
    let a = held.add_node(DecisionTreeNode::new(nearly_won(), GameState::Moved(Player::White)));
    let b = held.add_node(DecisionTreeNode::new(start_board(), GameState::Moved(Player::Black)));
    held.add_edge(a, b, 77);
    let mut graph: Option<TreeGraph> = Some(held);
    let tree = generate_tree(Some(0), start_board(), &mut graph).unwrap();
    let graph = graph.unwrap();
    assert_eq!(graph.node_count(), 3 + tree.children.len());
    assert_eq!(graph.edge_count(), 1 + tree.children.len());
    assert_eq!(*graph.edge_weight(EdgeIndex::new(0)).unwrap(), 77);
    assert_eq!(
        graph.node_weight(NodeIndex::new(0)).unwrap().game_state,
        GameState::Moved(Player::White)
    );
    assert_eq!(
        graph.node_weight(NodeIndex::new(1)).unwrap().game_state,
        GameState::Moved(Player::Black)
    );
    assert_eq!(
        graph.node_weight(NodeIndex::new(2)).unwrap().game_state,
        GameState::Start(Player::White)
    );
    assert_eq!(
        graph.node_weight(NodeIndex::new(3)).unwrap().game_state,
        GameState::Moved(Player::Black)
    );
    let (from, to) = graph.edge_endpoints(EdgeIndex::new(1)).unwrap();
    assert_eq!((from.index(), to.index()), (2, 3));
}

#[test]
fn won_positions_are_not_generated() {
    let mut graph: Option<TreeGraph> = None;
    let tree = generate_tree(Some(1), nearly_won(), &mut graph).unwrap();
    let won: Vec<&DecisionTreeNode> = tree
        .children
        .iter()
        .filter(|c| c.game_state == GameState::Won(Player::Black))
        .collect();
    assert_eq!(won.len(), 1);
    assert!(!won[0].generated);
    assert!(won[0].children.is_empty());
    for child in &tree.children {
        if child.game_state != GameState::Won(Player::Black) {
            assert!(child.generated);
        }
    }
}
