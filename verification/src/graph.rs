//! The whole game tree down to a depth, and its record in a graph.
//!
//! In such a tree the phase of a node names the side that has moved, or at
//! the start the side that waits: the other side moves, at the start too.
//!
//! The tree is built depth first. Where a graph is handed in, every node of
//! the tree becomes a node of the graph the moment it is created, and every
//! child is tied to its parent by an edge that carries the depth of the
//! parent.
//!
//! The graph is a `petgraph::graph::Graph`. Verus does not look into it:
//! what it holds is named by `graph_nodes` and `graph_edges`, and the
//! contracts of `node_count`, `edge_count`, `add_node` and `add_edge` are
//! taken on trust from the source of `petgraph`.

use crate::decision_tree::DecisionTreeNode;
use crate::halma::{BoardState, GameState, Player, Position};
use petgraph::graph::{Graph, NodeIndex};
use petgraph::Directed;
use vstd::prelude::*;

verus! {

/// `petgraph::graph::Graph`, of which Verus knows the name only.
#[verifier::external_type_specification]
#[verifier::external_body]
#[verifier::reject_recursive_types(N)]
#[verifier::reject_recursive_types(E)]
#[verifier::reject_recursive_types(Ty)]
#[verifier::reject_recursive_types(Ix)]
pub struct ExGraph<N, E, Ty, Ix>(Graph<N, E, Ty, Ix>);

/// `petgraph::Directed`, the marker of a graph with directed edges.
#[verifier::external_type_specification]
#[verifier::external_body]
pub struct ExDirected(Directed);

/// The graph that records a tree: its nodes are nodes of the tree, its edges
/// carry a depth.
pub type TreeGraph = Graph<DecisionTreeNode, u64>;

/// The weights of the nodes of a graph, in the order of their indices.
pub uninterp spec fn graph_nodes(graph: TreeGraph) -> Seq<DecisionTreeNode>;

/// The edges of a graph in the order of their indices, each as the index of
/// its source, the index of its target and its weight.
pub uninterp spec fn graph_edges(graph: TreeGraph) -> Seq<(int, int, u64)>;

/// The greatest number of nodes, and of edges, that a graph with indices of
/// 32 bits takes.
pub open spec fn graph_cap() -> int {
    u32::MAX as int
}

/// `Graph::node_count`: the number of nodes of the graph.
#[verifier::external_body]
fn node_count(graph: &TreeGraph) -> (count: usize)
    ensures
        count == graph_nodes(*graph).len(),
{
    graph.node_count()
}

/// `Graph::edge_count`: the number of edges of the graph.
#[verifier::external_body]
fn edge_count(graph: &TreeGraph) -> (count: usize)
    ensures
        count == graph_edges(*graph).len(),
{
    graph.edge_count()
}

/// `Graph::add_node`: the node is added behind the others and its index is
/// returned, which is the number of nodes before the call; the edges stay.
/// The method panics where the graph holds as many nodes as its index type
/// can count, so such a graph is kept out.
#[verifier::external_body]
fn add_node(graph: &mut TreeGraph, node: DecisionTreeNode) -> (index: usize)
    requires
        graph_nodes(*old(graph)).len() < graph_cap(),
    ensures
        index == graph_nodes(*old(graph)).len(),
        graph_nodes(*final(graph)) == graph_nodes(*old(graph)).push(node),
        graph_edges(*final(graph)) == graph_edges(*old(graph)),
{
    graph.add_node(node).index()
}

/// `Graph::add_edge`: an edge from the node with index `from` to the node
/// with index `to` is added behind the others; the nodes stay. The method
/// panics where one of the nodes does not exist or the graph holds as many
/// edges as its index type can count, so such calls are kept out.
#[verifier::external_body]
fn add_edge(graph: &mut TreeGraph, from: usize, to: usize, weight: u64)
    requires
        from < graph_nodes(*old(graph)).len(),
        to < graph_nodes(*old(graph)).len(),
        graph_nodes(*old(graph)).len() <= graph_cap(),
        graph_edges(*old(graph)).len() < graph_cap(),
    ensures
        graph_nodes(*final(graph)) == graph_nodes(*old(graph)),
        graph_edges(*final(graph)) == graph_edges(*old(graph)).push((from as int, to as int, weight)),
{
    graph.add_edge(NodeIndex::new(from), NodeIndex::new(to), weight);
}

/// The side that moves at a node of a tree that is built whole: the
/// opponent of the side that the phase names.
pub open spec fn tree_mover(phase: GameState) -> Player {
    match phase {
        GameState::Start(player) => player.opposite(),
        GameState::Moved(player) => player.opposite(),
        GameState::Won(player) => player.opposite(),
    }
}

/// The tree is what the rules make of its root, with `tree_mover` to move
/// at the root.
pub open spec fn tree_wf(node: &DecisionTreeNode) -> bool {
    node.wf_moved_by(tree_mover(node.game_state))
}

/// `whole` begins with the items of `part`.
pub open spec fn starts_with<T>(whole: Seq<T>, part: Seq<T>) -> bool {
    &&& part.len() <= whole.len()
    &&& forall|j: int| 0 <= j < part.len() ==> #[trigger] whole[j] == part[j]
}

/// The positions of the nodes that are created below a position at depth
/// `depth`, in the order of their creation: nothing below a won position or
/// one deeper than `limit`; otherwise each position that follows, and behind
/// each what is created below it.
pub open spec fn created_below(pos: Position, phase: GameState, depth: nat, limit: nat) -> Seq<
    (Position, GameState),
>
    decreases limit + 1 - depth, 0int,
{
    if depth > limit || phase is Won {
        Seq::empty()
    } else {
        let follow = pos.successors(tree_mover(phase));
        created_among(follow, follow.len() as int, depth, limit)
    }
}

/// What is created for the first `n` of the positions `follow`, which
/// follow a position at depth `depth`.
pub open spec fn created_among(
    follow: Seq<(Position, GameState)>,
    n: int,
    depth: nat,
    limit: nat,
) -> Seq<(Position, GameState)>
    decreases limit - depth, n + 1,
{
    if n <= 0 || depth > limit {
        Seq::empty()
    } else {
        created_among(follow, n - 1, depth, limit) + seq![follow[n - 1]] + created_below(
            follow[n - 1].0,
            follow[n - 1].1,
            depth + 1,
            limit,
        )
    }
}

/// The edges that are created below a position at depth `depth` whose node
/// has the index `own`, when the next node to be created gets the index
/// `next`.
pub open spec fn edges_below(
    pos: Position,
    phase: GameState,
    depth: nat,
    limit: nat,
    own: int,
    next: int,
) -> Seq<(int, int, u64)>
    decreases limit + 1 - depth, 0int,
{
    if depth > limit || phase is Won {
        Seq::empty()
    } else {
        let follow = pos.successors(tree_mover(phase));
        edges_among(follow, follow.len() as int, depth, limit, own, next)
    }
}

/// The edges that are created for the first `n` of the positions `follow`:
/// for each an edge from the parent, with the depth of the parent as its
/// weight, and behind it the edges below the position.
pub open spec fn edges_among(
    follow: Seq<(Position, GameState)>,
    n: int,
    depth: nat,
    limit: nat,
    own: int,
    next: int,
) -> Seq<(int, int, u64)>
    decreases limit - depth, n + 1,
{
    if n <= 0 || depth > limit {
        Seq::empty()
    } else {
        let child = next + created_among(follow, n - 1, depth, limit).len();
        edges_among(follow, n - 1, depth, limit, own, next) + seq![(own, child, depth as u64)]
            + edges_below(follow[n - 1].0, follow[n - 1].1, depth + 1, limit, child, child + 1)
    }
}

/// The tree is complete down to the depth `limit`: a node that is won or
/// deeper than `limit` has no children, every other node has been
/// generated, and so on below it.
pub open spec fn complete(node: &DecisionTreeNode, depth: nat, limit: nat) -> bool
    decreases node,
{
    if depth > limit || node.game_state is Won {
        !node.generated
    } else {
        &&& node.generated
        &&& forall|i: int|
            0 <= i < node.children@.len() ==> complete(
                #[trigger] &node.children@[i],
                depth + 1,
                limit,
            )
    }
}

/// The nodes `nodes` end with one node for each of `created`, of which
/// nothing was generated, and start as `before`.
pub open spec fn holds_created(
    before: Seq<DecisionTreeNode>,
    nodes: Seq<DecisionTreeNode>,
    created: Seq<(Position, GameState)>,
) -> bool {
    &&& nodes.len() == before.len() + created.len()
    &&& forall|j: int| 0 <= j < before.len() ==> #[trigger] nodes[j] == before[j]
    &&& forall|j: int|
        before.len() <= j < nodes.len() ==> (#[trigger] nodes[j]).is_fresh(
            created[j - before.len()].0,
            created[j - before.len()].1,
        )
}

/// The greatest depth at which nodes are generated.
pub open spec fn depth_limit(max_depth: Option<u64>) -> nat {
    match max_depth {
        Some(depth) => depth as nat,
        None => u64::MAX as nat,
    }
}

/// Whether a graph has room for so many more nodes and edges.
pub open spec fn has_room(graph: Option<TreeGraph>, nodes: int, edges: int) -> bool {
    match graph {
        Some(g) => graph_nodes(g).len() + nodes <= graph_cap() && graph_edges(g).len() + edges
            <= graph_cap(),
        None => true,
    }
}

/// The nodes of an optional graph.
pub open spec fn nodes_of(graph: Option<TreeGraph>) -> Seq<DecisionTreeNode> {
    match graph {
        Some(g) => graph_nodes(g),
        None => Seq::empty(),
    }
}

/// The edges of an optional graph.
pub open spec fn edges_of(graph: Option<TreeGraph>) -> Seq<(int, int, u64)> {
    match graph {
        Some(g) => graph_edges(g),
        None => Seq::empty(),
    }
}

proof fn lemma_created_grows(
    follow: Seq<(Position, GameState)>,
    m: int,
    n: int,
    depth: nat,
    limit: nat,
)
    requires
        0 <= m <= n,
        depth <= limit,
    ensures
        created_among(follow, m, depth, limit).len() + (n - m) <= created_among(
            follow,
            n,
            depth,
            limit,
        ).len(),
        m < n ==> created_among(follow, m, depth, limit).len() + 1 + created_below(
            follow[m].0,
            follow[m].1,
            depth + 1,
            limit,
        ).len() <= created_among(follow, n, depth, limit).len(),
    decreases n - m,
{
    if m < n {
        lemma_created_grows(follow, m, n - 1, depth, limit);
    }
}

/// One edge is created with each node.
proof fn lemma_edges_count_below(
    pos: Position,
    phase: GameState,
    depth: nat,
    limit: nat,
    own: int,
    next: int,
)
    ensures
        edges_below(pos, phase, depth, limit, own, next).len() == created_below(
            pos,
            phase,
            depth,
            limit,
        ).len(),
    decreases limit + 1 - depth, 0int,
{
    if !(depth > limit || phase is Won) {
        let follow = pos.successors(tree_mover(phase));
        lemma_edges_count_among(follow, follow.len() as int, depth, limit, own, next);
    }
}

proof fn lemma_edges_count_among(
    follow: Seq<(Position, GameState)>,
    n: int,
    depth: nat,
    limit: nat,
    own: int,
    next: int,
)
    ensures
        edges_among(follow, n, depth, limit, own, next).len() == created_among(
            follow,
            n,
            depth,
            limit,
        ).len(),
    decreases limit - depth, n + 1,
{
    if !(n <= 0 || depth > limit) {
        let child = next + created_among(follow, n - 1, depth, limit).len();
        lemma_edges_count_among(follow, n - 1, depth, limit, own, next);
        lemma_edges_count_below(follow[n - 1].0, follow[n - 1].1, depth + 1, limit, child, child + 1);
    }
}

/// Builds the tree below `node`, which stands at `current_depth`, and
/// records it in the graph. Returns whether the graph had room.
#[verifier::rlimit(50)]
#[verifier::spinoff_prover]
fn generate_tree_inner(
    node: &mut DecisionTreeNode,
    current_depth: u64,
    max_depth: u64,
    graph: &mut Option<TreeGraph>,
    parent_index: Option<usize>,
) -> (done: bool)
    requires
        old(node).board_state@.wf(),
        !old(node).generated,
        old(node).children@.len() == 0,
        *old(graph) is Some ==> parent_index is Some && parent_index->Some_0 < nodes_of(
            *old(graph),
        ).len(),
        has_room(*old(graph), 0, 0),
    ensures
        *final(graph) is Some <==> *old(graph) is Some,
        has_room(*final(graph), 0, 0),
        starts_with(nodes_of(*final(graph)), nodes_of(*old(graph))),
        starts_with(edges_of(*final(graph)), edges_of(*old(graph))),
        done <==> has_room(
            *old(graph),
            created_below(
                old(node).board_state@,
                old(node).game_state,
                current_depth as nat,
                max_depth as nat,
            ).len() as int,
            created_below(
                old(node).board_state@,
                old(node).game_state,
                current_depth as nat,
                max_depth as nat,
            ).len() as int,
        ),
        done ==> {
            &&& tree_wf(final(node))
            &&& final(node).board_state == old(node).board_state
            &&& final(node).game_state == old(node).game_state
            &&& complete(final(node), current_depth as nat, max_depth as nat)
            &&& holds_created(
                nodes_of(*old(graph)),
                nodes_of(*final(graph)),
                if *old(graph) is Some {
                    created_below(
                        old(node).board_state@,
                        old(node).game_state,
                        current_depth as nat,
                        max_depth as nat,
                    )
                } else {
                    Seq::empty()
                },
            )
            &&& *old(graph) is Some ==> edges_of(*final(graph)) == edges_of(*old(graph))
                + edges_below(
                old(node).board_state@,
                old(node).game_state,
                current_depth as nat,
                max_depth as nat,
                parent_index->Some_0 as int,
                nodes_of(*old(graph)).len() as int,
            )
        },
    decreases max_depth + 1 - current_depth,
{
    if current_depth > max_depth {
        return true;
    }
    if let GameState::Won(_) = node.game_state {
        return true;
    }
    let player = match node.game_state {
        GameState::Start(player) => player,
        GameState::Moved(player) => player,
        GameState::Won(player) => player,
    };
    node.generate_children(player.other());
    proof {
        crate::decision_tree::lemma_generated_wf_by(node, tree_mover(node.game_state));
    }
    let ghost pos = node.board_state@;
    let ghost phase = node.game_state;
    let ghost mover = tree_mover(phase);
    let ghost follow = pos.successors(mover);
    let ghost depth = current_depth as nat;
    let ghost limit = max_depth as nat;
    let ghost recorded = *old(graph) is Some;
    let ghost nodes0 = nodes_of(*old(graph));
    let ghost edges0 = edges_of(*old(graph));
    let ghost own = parent_index->Some_0 as int;
    let count = node.children.len();
    let mut i: usize = 0;
    while i < count
        invariant
            i <= count,
            count == node.children@.len(),
            count == follow.len(),
            current_depth <= max_depth,
            depth == current_depth,
            limit == max_depth,
            node.wf_moved_by(mover),
            node.generated,
            !(node.game_state is Won),
            node.board_state == old(node).board_state,
            node.game_state == old(node).game_state,
            pos == node.board_state@,
            phase == node.game_state,
            mover == tree_mover(phase),
            follow == pos.successors(mover),
            starts_with(nodes_of(*graph), nodes0),
            starts_with(edges_of(*graph), edges0),
            recorded == (*old(graph) is Some),
            recorded == (*graph is Some),
            nodes0 == nodes_of(*old(graph)),
            edges0 == edges_of(*old(graph)),
            recorded ==> parent_index is Some && parent_index->Some_0 == own && own < nodes0.len(),
            has_room(*graph, 0, 0),
            forall|j: int| 0 <= j < i ==> complete(#[trigger] &node.children@[j], depth + 1, limit),
            forall|j: int|
                i <= j < count ==> !(#[trigger] node.children@[j]).generated
                    && node.children@[j].children@.len() == 0,
            holds_created(
                nodes0,
                nodes_of(*graph),
                if recorded {
                    created_among(follow, i as int, depth, limit)
                } else {
                    Seq::empty()
                },
            ),
            recorded ==> edges_of(*graph) == edges0 + edges_among(
                follow,
                i as int,
                depth,
                limit,
                own,
                nodes0.len() as int,
            ),
        decreases count - i,
    {
        let ghost before = *node;
        let ghost so_far = created_among(follow, i as int, depth, limit);
        let ghost below = created_below(follow[i as int].0, follow[i as int].1, depth + 1, limit);
        let ghost nodes1 = nodes_of(*graph);
        let ghost edges1 = edges_of(*graph);
        let ghost at: int = (nodes0.len() + so_far.len()) as int;
        proof {
            crate::decision_tree::lemma_follow_phase(pos, mover, i as int);
            lemma_created_grows(follow, i as int, count as int, depth, limit);
            lemma_edges_count_among(follow, i as int, depth, limit, own, nodes0.len() as int);
            lemma_edges_count_below(
                follow[i as int].0,
                follow[i as int].1,
                depth + 1,
                limit,
                at,
                at + 1,
            );
            assert(created_among(follow, i + 1, depth, limit) == so_far + seq![follow[i as int]]
                + below);
            assert(edges_among(follow, i + 1, depth, limit, own, nodes0.len() as int)
                == edges_among(follow, i as int, depth, limit, own, nodes0.len() as int) + seq![
                (own, at, depth as u64),
            ] + edges_below(
                follow[i as int].0,
                follow[i as int].1,
                depth + 1,
                limit,
                at,
                at + 1,
            ));
        }
        let mut child_index: Option<usize> = None;
        match &mut *graph {
            Some(g) => {
                if node_count(g) >= u32::MAX as usize || edge_count(g) >= u32::MAX as usize {
                    return false;
                }
                let copy = node.children[i].clone();
                let index = add_node(g, copy);
                match parent_index {
                    Some(parent) => {
                        add_edge(g, parent, index, current_depth);
                    },
                    None => {},
                }
                child_index = Some(index);
            },
            None => {},
        }
        let ghost nodes2 = nodes_of(*graph);
        let ghost edges2 = edges_of(*graph);
        proof {
            if recorded {
                assert(holds_created(nodes0, nodes2, so_far + seq![follow[i as int]])) by {
                    assert forall|j: int| nodes0.len() <= j < nodes2.len() implies (
                    #[trigger] nodes2[j]).is_fresh(
                        (so_far + seq![follow[i as int]])[j - nodes0.len()].0,
                        (so_far + seq![follow[i as int]])[j - nodes0.len()].1,
                    ) by {
                        if j < nodes1.len() {
                            assert(nodes2[j] == nodes1[j]);
                        }
                    }
                }
                assert(edges2 == edges1.push((own, at, current_depth)));
            }
        }
        let won = match node.children[i].game_state {
            GameState::Won(_) => true,
            _ => false,
        };
        if !won && current_depth < u64::MAX {
            let done = generate_tree_inner(
                &mut node.children[i],
                current_depth + 1,
                max_depth,
                graph,
                child_index,
            );
            if !done {
                return false;
            }
            proof {
                crate::decision_tree::lemma_child_replaced_by(&before, node, mover, i as int);
            }
        }
        proof {
            let nodes3 = nodes_of(*graph);
            assert forall|j: int| 0 <= j < i + 1 implies complete(
                #[trigger] &node.children@[j],
                depth + 1,
                limit,
            ) by {
                if j < i {
                    assert(node.children@[j] == before.children@[j]);
                }
            }
            assert forall|j: int| i + 1 <= j < count implies !(#[trigger] node.children@[j]).generated
                && node.children@[j].children@.len() == 0 by {
                assert(node.children@[j] == before.children@[j]);
            }
            if recorded {
                let all = so_far + seq![follow[i as int]] + below;
                assert(holds_created(nodes0, nodes3, all)) by {
                    assert forall|j: int| nodes0.len() <= j < nodes3.len() implies (
                    #[trigger] nodes3[j]).is_fresh(
                        all[j - nodes0.len()].0,
                        all[j - nodes0.len()].1,
                    ) by {
                        if j < nodes2.len() {
                            assert(nodes3[j] == nodes2[j]);
                            assert(all[j - nodes0.len()] == (so_far + seq![follow[i as int]])[j
                                - nodes0.len()]);
                        } else {
                            assert(all[j - nodes0.len()] == below[j - nodes2.len()]);
                        }
                    }
                    assert forall|j: int| 0 <= j < nodes0.len() implies #[trigger] nodes3[j]
                        == nodes0[j] by {
                        assert(nodes2[j] == nodes0[j]);
                    }
                }
                assert(edges_of(*graph) =~= edges0 + edges_among(
                    follow,
                    i + 1,
                    depth,
                    limit,
                    own,
                    nodes0.len() as int,
                ));
            }
        }
        i += 1;
    }
    proof {
        lemma_edges_count_among(follow, count as int, depth, limit, own, nodes0.len() as int);
    }
    true
}

/// Builds the whole tree below a position in which Black is to move first,
/// down to the depth `max_depth` (without one: as deep as a depth can be
/// counted), and records it in `graph` if there is one.
///
/// The root has the phase `Start(White)`: White waits and Black moves. It is
/// added to the graph first. Without a graph the tree is always returned.
/// With one it is returned if the graph has room for every node and edge;
/// otherwise nothing is returned and the graph holds what it held, followed
/// by what was recorded until the room ran out.
pub fn generate_tree(
    max_depth: Option<u64>,
    first_board_state: BoardState,
    graph: &mut Option<TreeGraph>,
) -> (tree: Option<DecisionTreeNode>)
    requires
        first_board_state@.wf(),
    ensures
        *final(graph) is Some <==> *old(graph) is Some,
        starts_with(nodes_of(*final(graph)), nodes_of(*old(graph))),
        starts_with(edges_of(*final(graph)), edges_of(*old(graph))),
        tree is Some <==> has_room(
            *old(graph),
            1 + created_below(
                first_board_state@,
                GameState::Start(Player::White),
                0,
                depth_limit(max_depth),
            ).len() as int,
            created_below(
                first_board_state@,
                GameState::Start(Player::White),
                0,
                depth_limit(max_depth),
            ).len() as int,
        ),
        tree matches Some(root) ==> {
            &&& tree_wf(&root)
            &&& root.board_state == first_board_state
            &&& root.game_state == GameState::Start(Player::White)
            &&& complete(&root, 0, depth_limit(max_depth))
            &&& *old(graph) is Some ==> {
                &&& holds_created(
                    nodes_of(*old(graph)),
                    nodes_of(*final(graph)),
                    seq![(first_board_state@, GameState::Start(Player::White))] + created_below(
                        first_board_state@,
                        GameState::Start(Player::White),
                        0,
                        depth_limit(max_depth),
                    ),
                )
                &&& edges_of(*final(graph)) == edges_of(*old(graph)) + edges_below(
                    first_board_state@,
                    GameState::Start(Player::White),
                    0,
                    depth_limit(max_depth),
                    nodes_of(*old(graph)).len() as int,
                    nodes_of(*old(graph)).len() as int + 1,
                )
            }
        },
{
    let limit = match max_depth {
        Some(depth) => depth,
        None => u64::MAX,
    };
    let mut first_node = DecisionTreeNode::new(first_board_state, GameState::Start(Player::White));
    let mut first_index: Option<usize> = None;
    let ghost nodes0 = nodes_of(*graph);
    let ghost start = (first_board_state@, GameState::Start(Player::White));
    let ghost below = created_below(start.0, start.1, 0, limit as nat);
    match &mut *graph {
        Some(g) => {
            if node_count(g) >= u32::MAX as usize || edge_count(g) > u32::MAX as usize {
                return None;
            }
            first_index = Some(add_node(g, first_node.clone()));
        },
        None => {},
    }
    let ghost nodes1 = nodes_of(*graph);
    let done = generate_tree_inner(&mut first_node, 0, limit, graph, first_index);
    if done {
        proof {
            if *old(graph) is Some {
                let nodes2 = nodes_of(*graph);
                let all = seq![start] + below;
                assert forall|j: int| nodes0.len() <= j < nodes2.len() implies (
                #[trigger] nodes2[j]).is_fresh(all[j - nodes0.len()].0, all[j - nodes0.len()].1) by {
                    if j < nodes1.len() {
                        assert(nodes2[j] == nodes1[j]);
                    } else {
                        assert(all[j - nodes0.len()] == below[j - nodes1.len()]);
                    }
                }
                assert forall|j: int| 0 <= j < nodes0.len() implies #[trigger] nodes2[j]
                    == nodes0[j] by {
                    assert(nodes1[j] == nodes0[j]);
                }
            }
        }
        Some(first_node)
    } else {
        None
    }
}

} // verus!
