//! Depth-limited search of the game tree, plain and with alpha-beta
//! pruning, and the round loop that plays a game with it.
//!
//! What a search returns is stated by `search` and `pruned_search` on
//! positions; the executable searches walk a tree of nodes, generate the
//! children of a node when they first reach it, and are proved to return
//! what those functions say whenever the evaluator is deterministic.
//!
//! A game is played in rounds. Each round tests the limit of rounds first,
//! then makes the move that the search before has chosen, then searches
//! from the new root. So the game stands on the root of the last search
//! when the limit ends it, and the last choice is left pending. `play`
//! states the game of deterministic evaluators, `course` what holds of every
//! game.

use crate::decision_tree::DecisionTreeNode;
use crate::halma::{GameState, Player, Position};
use crate::heuristics::{Heuristic, Score};
use vstd::prelude::*;

verus! {

/// How much the round loop reports of its progress.
#[derive(Clone, Copy, Debug, PartialEq, Eq, Structural)]
pub enum LogLevel {
    /// Nothing is reported.
    Quiet,
    /// The number of each round is reported.
    RoundNum,
    /// The number of each round, the child chosen in it with its value, and
    /// the position that follows are reported.
    All,
}

impl LogLevel {
    /// Whether the number of each round is reported.
    pub fn shows_rounds(&self) -> (shown: bool)
        ensures
            shown == !(self is Quiet),
    {
        match self {
            LogLevel::Quiet => false,
            _ => true,
        }
    }

    /// Whether the choice of each round and the position that follows are
    /// reported.
    pub fn shows_positions(&self) -> (shown: bool)
        ensures
            shown == (self is All),
    {
        match self {
            LogLevel::All => true,
            _ => false,
        }
    }
}

/// What a search returns.
#[derive(Debug)]
pub enum MinMaxResult {
    /// The best value found, and the index of the child that yields it (at
    /// depth 0: the value of the node, and the index that was handed in).
    Eval(Score, usize),
    /// A won position that the search came upon, and the depth that was left
    /// when it did.
    Leaf(DecisionTreeNode, u32),
    /// A position that is not won and from which no move is possible.
    DeadEnd(DecisionTreeNode),
}

/// What a search returns, on positions.
pub enum Verdict {
    Eval(Score, int),
    Leaf(Position, GameState, nat),
    DeadEnd(Position, GameState),
}

impl View for MinMaxResult {
    type V = Verdict;

    open spec fn view(&self) -> Verdict {
        match self {
            MinMaxResult::Eval(value, index) => Verdict::Eval(*value, *index as int),
            MinMaxResult::Leaf(node, depth) => Verdict::Leaf(
                node.board_state@,
                node.game_state,
                *depth as nat,
            ),
            MinMaxResult::DeadEnd(node) => Verdict::DeadEnd(node.board_state@, node.game_state),
        }
    }
}

impl MinMaxResult {
    /// The node of a `Leaf` is a won position without children, that of a
    /// `DeadEnd` a generated position that is not won and has no children.
    pub open spec fn wf(&self) -> bool {
        match self {
            MinMaxResult::Eval(_, _) => true,
            MinMaxResult::Leaf(node, _) => node.wf() && node.game_state is Won,
            MinMaxResult::DeadEnd(node) => node.wf() && !(node.game_state is Won) && node.generated
                && node.children@.len() == 0,
        }
    }
}

/// A score as a search takes it: the least and the greatest number are
/// kept for the start of a choice, so a score that reaches one of them is
/// taken for its neighbour.
pub open spec fn clipped(score: Score) -> Score {
    if score == Score::MIN {
        (Score::MIN + 1) as Score
    } else if score == Score::MAX {
        (Score::MAX - 1) as Score
    } else {
        score
    }
}

/// Keeps a score off the least and the greatest number.
pub fn clip(score: Score) -> (kept: Score)
    ensures
        kept == clipped(score),
        Score::MIN < kept < Score::MAX,
{
    if score == Score::MIN {
        Score::MIN + 1
    } else if score == Score::MAX {
        Score::MAX - 1
    } else {
        score
    }
}

/// The value with which the choice among the children starts: the least for
/// the side that maximizes, the greatest for the side that minimizes.
pub open spec fn worst(maximizing: bool) -> Score {
    if maximizing {
        Score::MIN
    } else {
        Score::MAX
    }
}

/// Whether `candidate` replaces `best`: only if it is strictly greater for
/// the side that maximizes, strictly less for the side that minimizes.
pub open spec fn better(maximizing: bool, candidate: Score, best: Score) -> bool {
    if maximizing {
        best < candidate
    } else {
        best > candidate
    }
}

/// The result of a search of `depth` plies from a position.
///
/// A won position ends the search at once, whatever the depth. At depth 0
/// the position is scored for `side` in `round`, and the score is kept off
/// the least and the greatest number. Otherwise the positions
/// that follow are searched in turn, one ply less deep and with the roles of
/// maximizing and minimizing exchanged, and the first of the best among them
/// is chosen; a position without a move ends the search too.
pub open spec fn search(
    pos: Position,
    phase: GameState,
    depth: nat,
    index: int,
    maximizing: bool,
    side: Player,
    round: u32,
    scores: spec_fn(Position, Player, u32) -> Score,
) -> Verdict
    decreases depth, 0int,
{
    if phase is Won {
        Verdict::Leaf(pos, phase, depth)
    } else if depth == 0 {
        Verdict::Eval(clipped(scores(pos, side, round)), index)
    } else {
        let follow = pos.successors(phase.to_move());
        if follow.len() == 0 {
            Verdict::DeadEnd(pos, phase)
        } else {
            scan(follow, follow.len() as int, (depth - 1) as nat, maximizing, side, round, scores)
        }
    }
}

/// The choice among the first `n` of the positions `follow`, each searched
/// `depth` plies deep: the best value and the first index that yields it,
/// unless one of the searches ended otherwise; then that is the result.
pub open spec fn scan(
    follow: Seq<(Position, GameState)>,
    n: int,
    depth: nat,
    maximizing: bool,
    side: Player,
    round: u32,
    scores: spec_fn(Position, Player, u32) -> Score,
) -> Verdict
    decreases depth, n + 1,
{
    if n <= 0 {
        Verdict::Eval(worst(maximizing), 0)
    } else {
        match scan(follow, n - 1, depth, maximizing, side, round, scores) {
            Verdict::Eval(best, at) => match search(
                follow[n - 1].0,
                follow[n - 1].1,
                depth,
                n - 1,
                !maximizing,
                side,
                round,
                scores,
            ) {
                Verdict::Eval(value, _) => if better(maximizing, value, best) {
                    Verdict::Eval(value, n - 1)
                } else {
                    Verdict::Eval(best, at)
                },
                ended => ended,
            },
            ended => ended,
        }
    }
}

/// Once a choice has ended otherwise than by a value, it stays as it is
/// however many more positions are looked at.
pub proof fn lemma_scan_ended(
    follow: Seq<(Position, GameState)>,
    m: int,
    n: int,
    depth: nat,
    maximizing: bool,
    side: Player,
    round: u32,
    scores: spec_fn(Position, Player, u32) -> Score,
)
    requires
        m <= n,
        !(scan(follow, m, depth, maximizing, side, round, scores) is Eval),
    ensures
        scan(follow, n, depth, maximizing, side, round, scores) == scan(
            follow,
            m,
            depth,
            maximizing,
            side,
            round,
            scores,
        ),
    decreases n - m,
{
    if m < n {
        lemma_scan_ended(follow, m, n - 1, depth, maximizing, side, round, scores);
    }
}

/// Scores that are all alike.
pub open spec fn no_scores() -> spec_fn(Position, Player, u32) -> Score {
    |position: Position, player: Player, round: u32| 0 as Score
}

/// The ending that a plain search of `depth` plies comes upon first, if it
/// comes upon one: a won position or one without a move. The scores play no
/// part in it.
pub open spec fn first_ending(pos: Position, phase: GameState, depth: nat) -> Option<Verdict> {
    match search(pos, phase, depth, 0, true, Player::Black, 0, no_scores()) {
        Verdict::Eval(_, _) => None,
        ended => Some(ended),
    }
}

/// Whether a plain search ends with a value, and where it ends if it does
/// not, is the same whatever the scores, the side and the round are, and
/// whoever maximizes.
pub proof fn lemma_ending_needs_no_scores(
    pos: Position,
    phase: GameState,
    depth: nat,
    index: int,
    maximizing: bool,
    side: Player,
    round: u32,
    scores: spec_fn(Position, Player, u32) -> Score,
)
    ensures
        first_ending(pos, phase, depth) == (match search(
            pos,
            phase,
            depth,
            index,
            maximizing,
            side,
            round,
            scores,
        ) {
            Verdict::Eval(_, _) => None,
            ended => Some(ended),
        }),
    decreases depth, 0int,
{
    if !(phase is Won) && depth > 0 {
        let follow = pos.successors(phase.to_move());
        if follow.len() > 0 {
            lemma_scan_needs_no_scores(
                follow,
                follow.len() as int,
                (depth - 1) as nat,
                maximizing,
                side,
                round,
                scores,
            );
        }
    }
}

proof fn lemma_scan_needs_no_scores(
    follow: Seq<(Position, GameState)>,
    n: int,
    depth: nat,
    maximizing: bool,
    side: Player,
    round: u32,
    scores: spec_fn(Position, Player, u32) -> Score,
)
    ensures
        (match scan(follow, n, depth, true, Player::Black, 0, no_scores()) {
            Verdict::Eval(_, _) => None,
            ended => Some(ended),
        }) == (match scan(follow, n, depth, maximizing, side, round, scores) {
            Verdict::Eval(_, _) => None::<Verdict>,
            ended => Some(ended),
        }),
    decreases depth, n + 1,
{
    if n > 0 {
        lemma_scan_needs_no_scores(follow, n - 1, depth, maximizing, side, round, scores);
        lemma_ending_needs_no_scores(
            follow[n - 1].0,
            follow[n - 1].1,
            depth,
            n - 1,
            !maximizing,
            side,
            round,
            scores,
        );
        lemma_ending_needs_no_scores(
            follow[n - 1].0,
            follow[n - 1].1,
            depth,
            n - 1,
            false,
            Player::Black,
            0,
            no_scores(),
        );
    }
}

/// The position that is reached from a position by the moves with the
/// given indices among the positions that follow, one after the other, if
/// there are such moves.
pub open spec fn walk(pos: Position, phase: GameState, path: Seq<int>) -> Option<
    (Position, GameState),
>
    decreases path.len(),
{
    if path.len() == 0 {
        Some((pos, phase))
    } else if phase is Won || !(0 <= path[0] < pos.successors(phase.to_move()).len()) {
        None
    } else {
        walk(
            pos.successors(phase.to_move())[path[0]].0,
            pos.successors(phase.to_move())[path[0]].1,
            path.drop_first(),
        )
    }
}

/// Whether `target` stands exactly `plies` plies below a position.
pub open spec fn stands_below(
    pos: Position,
    phase: GameState,
    plies: nat,
    target: (Position, GameState),
) -> bool {
    exists|path: Seq<int>| path.len() == plies && #[trigger] walk(pos, phase, path) == Some(target)
}

/// Whether an ending is one that a search of `depth` plies can come upon:
/// a won position, with the depth that is left where it stands, or a
/// position without a move, less than `depth` plies below the root.
pub open spec fn comes_upon(pos: Position, phase: GameState, depth: nat, ending: Verdict) -> bool {
    match ending {
        Verdict::Eval(_, _) => true,
        Verdict::Leaf(won, won_phase, left) => left <= depth && won_phase is Won && stands_below(
            pos,
            phase,
            (depth - left) as nat,
            (won, won_phase),
        ),
        Verdict::DeadEnd(stuck, stuck_phase) => !(stuck_phase is Won) && stuck.successors(
            stuck_phase.to_move(),
        ).len() == 0 && exists|plies: nat|
            plies < depth && #[trigger] stands_below(pos, phase, plies, (stuck, stuck_phase)),
    }
}

/// An ending that a search comes upon below a position that follows is one
/// that the search from the position itself comes upon.
pub proof fn lemma_comes_upon_below(
    pos: Position,
    phase: GameState,
    depth: nat,
    i: int,
    ending: Verdict,
)
    requires
        depth > 0,
        !(phase is Won),
        0 <= i < pos.successors(phase.to_move()).len(),
        comes_upon(
            pos.successors(phase.to_move())[i].0,
            pos.successors(phase.to_move())[i].1,
            (depth - 1) as nat,
            ending,
        ),
    ensures
        comes_upon(pos, phase, depth, ending),
{
    let next = pos.successors(phase.to_move())[i];
    match ending {
        Verdict::Eval(_, _) => {},
        Verdict::Leaf(won, won_phase, left) => {
            lemma_stands_below_next(pos, phase, (depth - left) as nat, i, (won, won_phase));
        },
        Verdict::DeadEnd(stuck, stuck_phase) => {
            let plies = choose|plies: nat|
                plies < depth - 1 && #[trigger] stands_below(
                    next.0,
                    next.1,
                    plies,
                    (stuck, stuck_phase),
                );
            lemma_stands_below_next(pos, phase, plies + 1, i, (stuck, stuck_phase));
        },
    }
}

/// A position stands no ply below itself.
proof fn lemma_stands_at(pos: Position, phase: GameState)
    ensures
        stands_below(pos, phase, 0, (pos, phase)),
{
    assert(walk(pos, phase, Seq::empty()) == Some((pos, phase)));
}

/// What stands below a position that follows stands one ply deeper below
/// the position itself.
proof fn lemma_stands_below_next(
    pos: Position,
    phase: GameState,
    plies: nat,
    i: int,
    target: (Position, GameState),
)
    requires
        plies > 0,
        !(phase is Won),
        0 <= i < pos.successors(phase.to_move()).len(),
        stands_below(
            pos.successors(phase.to_move())[i].0,
            pos.successors(phase.to_move())[i].1,
            (plies - 1) as nat,
            target,
        ),
    ensures
        stands_below(pos, phase, plies, target),
{
    let next = pos.successors(phase.to_move())[i];
    let rest = choose|path: Seq<int>|
        path.len() == plies - 1 && #[trigger] walk(next.0, next.1, path) == Some(target);
    let path = seq![i] + rest;
    assert(path.drop_first() =~= rest);
    assert(walk(pos, phase, path) == Some(target));
}

/// What every search leaves behind, whatever the evaluator answers.
///
/// The tree is well-formed and extends the one that was handed in. A value
/// lies between the least and the greatest number and is never returned
/// for a won position; where it is returned by a search
/// of one ply or more, the node has been generated and the index is that
/// of one of its children, which is not won. An ending that is returned is
/// one that the search can come upon, and the node that stands for it is a
/// tree of its own.
pub open spec fn search_frame(
    before: &DecisionTreeNode,
    after: &DecisionTreeNode,
    depth: u32,
    result: MinMaxResult,
) -> bool {
    &&& after.wf()
    &&& after.extends(before)
    &&& result.wf()
    &&& comes_upon(before.board_state@, before.game_state, depth as nat, result@)
    &&& result matches MinMaxResult::Eval(value, index) ==> {
        &&& Score::MIN < value < Score::MAX
        &&& !(before.game_state is Won)
        &&& depth > 0 ==> {
            &&& after.generated
            &&& index < after.children@.len()
            &&& !(after.children@[index as int].game_state is Won)
        }
    }
}

/// The side to move at a phase that is not won.
pub fn next_player(game_state: GameState) -> (player: Player)
    ensures
        player == game_state.to_move(),
{
    match game_state {
        GameState::Start(player) => player,
        GameState::Moved(player) => player.other(),
        GameState::Won(player) => player.other(),
    }
}

/// Generates the children of a node that is not won, for the side to move,
/// unless they have been generated already.
pub fn expand(node: &mut DecisionTreeNode)
    requires
        old(node).wf(),
        !(old(node).game_state is Won),
    ensures
        final(node).wf(),
        final(node).generated,
        final(node).board_state == old(node).board_state,
        final(node).game_state == old(node).game_state,
        old(node).generated ==> *final(node) == *old(node),
        final(node).extends(old(node)),
{
    proof {
        crate::decision_tree::lemma_extends_self(node);
    }
    if !node.generated {
        let mover = next_player(node.game_state);
        node.generate_children(mover);
        proof {
            crate::decision_tree::lemma_generated_wf(node);
        }
    }
}

/// Searches `current_depth` plies from `node` without pruning.
///
/// The positions at the bottom of the search are scored by `heuristic` for
/// `player` in the round `round_number`; `maximizing` says whether the side
/// that chooses at `node` takes the greatest or the least value, and
/// `node_index` is the index that a search of no ply returns with its score.
/// Nodes that the search reaches are generated if they were not, and what
/// was generated before stays.
///
/// Whatever the evaluator answers, the search ends otherwise than by a
/// value exactly where `first_ending` says, and with that ending. With a
/// deterministic evaluator the result is that of `search`.
#[verifier::rlimit(50)]
#[verifier::spinoff_prover]
pub fn minimax_inner<H: Heuristic>(
    node: &mut DecisionTreeNode,
    current_depth: u32,
    heuristic: &mut H,
    node_index: usize,
    maximizing: bool,
    player: Player,
    round_number: u32,
) -> (result: MinMaxResult)
    requires
        old(node).wf(),
    ensures
        search_frame(old(node), final(node), current_depth, result),
        result is Eval ==> final(node).grown_to(current_depth as nat),
        first_ending(old(node).board_state@, old(node).game_state, current_depth as nat) == (
        if result is Eval {
            None
        } else {
            Some(result@)
        }),
        old(heuristic).deterministic() ==> crate::heuristics::steady(old(heuristic), final(heuristic)),
        old(heuristic).deterministic() ==> result@ == search(
            old(node).board_state@,
            old(node).game_state,
            current_depth as nat,
            node_index as int,
            maximizing,
            player,
            round_number,
            crate::heuristics::oracle(old(heuristic)),
        ),
    decreases current_depth,
{
    proof {
        crate::decision_tree::lemma_extends_self(node);
        lemma_stands_at(node.board_state@, node.game_state);
    }
    if let GameState::Won(_) = node.game_state {
        return MinMaxResult::Leaf(node.clone(), current_depth);
    }
    if current_depth == 0 {
        let value = clip(heuristic.evaluate(&node.board_state, player, round_number));
        return MinMaxResult::Eval(value, node_index);
    }
    expand(node);
    if node.children.len() == 0 {
        proof {
            lemma_stands_at(node.board_state@, node.game_state);
            assert(node.board_state@.successors(node.game_state.to_move()).len() == 0);
        }
        return MinMaxResult::DeadEnd(node.clone());
    }
    let ghost follow = node.board_state@.successors(node.game_state.to_move());
    let ghost scores = crate::heuristics::oracle(old(heuristic));
    let ghost start = *node;
    proof {
        assert forall|j: int| 0 <= j < start.children@.len() implies (
        #[trigger] start.children@[j]).extends(&start.children@[j]) by {
            crate::decision_tree::lemma_extends_self(&start.children@[j]);
        }
    }
    let mut max_eval: Score = if maximizing {
        Score::MIN
    } else {
        Score::MAX
    };
    let mut max_child_index: usize = 0;
    let mut child_index: usize = 0;
    let count = node.children.len();
    while child_index < count
        invariant
            child_index <= count,
            count == node.children@.len(),
            count > 0,
            current_depth > 0,
            max_child_index < count,
            child_index == 0 ==> max_child_index == 0,
            child_index == 0 ==> max_eval == worst(maximizing),
            child_index > 0 ==> Score::MIN < max_eval < Score::MAX,
            child_index > 0 ==> !(follow[max_child_index as int].1 is Won),
            node.wf(),
            node.generated,
            old(node).generated ==> start == *old(node),
            start.generated,
            start.children@.len() == count,
            node.same_root(&start),
            forall|j: int|
                0 <= j < count ==> (#[trigger] node.children@[j]).extends(&start.children@[j]),
            forall|j: int| child_index <= j < count ==> #[trigger] node.children@[j] == start.children@[j],
            forall|j: int|
                0 <= j < child_index ==> (#[trigger] node.children@[j]).grown_to(
                    (current_depth - 1) as nat,
                ),
            node.board_state == old(node).board_state,
            node.game_state == old(node).game_state,
            follow == node.board_state@.successors(node.game_state.to_move()),
            scores == crate::heuristics::oracle(old(heuristic)),
            scan(
                follow,
                child_index as int,
                (current_depth - 1) as nat,
                true,
                Player::Black,
                0,
                no_scores(),
            ) is Eval,
            old(heuristic).deterministic() ==> crate::heuristics::steady(old(heuristic), heuristic),
            old(heuristic).deterministic() ==> scan(
                follow,
                child_index as int,
                (current_depth - 1) as nat,
                maximizing,
                player,
                round_number,
                scores,
            ) == Verdict::Eval(max_eval, max_child_index as int),
        decreases count - child_index,
    {
        let ghost before = *node;
        let ghost asked = *heuristic;
        proof {
            crate::decision_tree::lemma_children_follow(node, child_index as int);
        }
        let minmax_inner_result = minimax_inner(
            &mut node.children[child_index],
            current_depth - 1,
            heuristic,
            child_index,
            !maximizing,
            player,
            round_number,
        );
        proof {
            crate::decision_tree::lemma_children_follow(&before, child_index as int);
            crate::decision_tree::lemma_child_replaced(&before, node, child_index as int);
            assert forall|j: int| 0 <= j < count implies (#[trigger] node.children@[j]).extends(
                &start.children@[j],
            ) by {
                if j != child_index {
                    assert(node.children@[j] == before.children@[j]);
                }
            }
            assert forall|j: int| child_index + 1 <= j < count implies #[trigger] node.children@[j]
                == start.children@[j] by {
                assert(node.children@[j] == before.children@[j]);
            }
            assert forall|j: int| 0 <= j < child_index implies (#[trigger] node.children@[j]).grown_to(
                (current_depth - 1) as nat,
            ) by {
                assert(node.children@[j] == before.children@[j]);
            }
            lemma_ending_needs_no_scores(
                follow[child_index as int].0,
                follow[child_index as int].1,
                (current_depth - 1) as nat,
                child_index as int,
                false,
                Player::Black,
                0,
                no_scores(),
            );
            if old(heuristic).deterministic() {
                crate::heuristics::lemma_steady_oracle(old(heuristic), &asked);
            }
        }
        match minmax_inner_result {
            MinMaxResult::Eval(child_eval, _) => {
                assert(!(follow[child_index as int].1 is Won));
                if maximizing {
                    if max_eval < child_eval {
                        max_eval = child_eval;
                        max_child_index = child_index;
                    }
                } else {
                    if max_eval > child_eval {
                        max_eval = child_eval;
                        max_child_index = child_index;
                    }
                }
            },
            MinMaxResult::Leaf(leaf, depth) => {
                proof {
                    crate::decision_tree::lemma_extends_by_children(node, &start);
                    lemma_comes_upon_below(
                        node.board_state@,
                        node.game_state,
                        current_depth as nat,
                        child_index as int,
                        minmax_inner_result@,
                    );
                    lemma_scan_ended(
                        follow,
                        child_index + 1,
                        count as int,
                        (current_depth - 1) as nat,
                        true,
                        Player::Black,
                        0,
                        no_scores(),
                    );
                    if old(heuristic).deterministic() {
                        lemma_scan_ended(
                            follow,
                            child_index + 1,
                            count as int,
                            (current_depth - 1) as nat,
                            maximizing,
                            player,
                            round_number,
                            scores,
                        );
                    }
                }
                return MinMaxResult::Leaf(leaf, depth);
            },
            MinMaxResult::DeadEnd(stuck) => {
                proof {
                    crate::decision_tree::lemma_extends_by_children(node, &start);
                    lemma_comes_upon_below(
                        node.board_state@,
                        node.game_state,
                        current_depth as nat,
                        child_index as int,
                        minmax_inner_result@,
                    );
                    lemma_scan_ended(
                        follow,
                        child_index + 1,
                        count as int,
                        (current_depth - 1) as nat,
                        true,
                        Player::Black,
                        0,
                        no_scores(),
                    );
                    if old(heuristic).deterministic() {
                        lemma_scan_ended(
                            follow,
                            child_index + 1,
                            count as int,
                            (current_depth - 1) as nat,
                            maximizing,
                            player,
                            round_number,
                            scores,
                        );
                    }
                }
                return MinMaxResult::DeadEnd(stuck);
            },
        }
        child_index += 1;
    }
    proof {
        crate::decision_tree::lemma_children_follow(node, max_child_index as int);
        crate::decision_tree::lemma_extends_by_children(node, &start);
    }
    MinMaxResult::Eval(max_eval, max_child_index)
}

/// Whether a search is sure to look at every position that the plain
/// search looks at: it does not prune; or it is no ply deep; or it is one
/// ply deep with the widest bounds, which no score reaches.
pub open spec fn nothing_passed_over(pruned: bool, depth: u32, alfa: Score, beta: Score) -> bool {
    ||| !pruned
    ||| depth == 0
    ||| depth == 1 && alfa == Score::MIN && beta == Score::MAX
}

/// How far the choice among the children has come in a search that prunes.
pub enum Sweep {
    /// The best value so far and the index that yields it, the bounds as they
    /// stand, and whether the bounds have met, so that no further child is
    /// looked at.
    Going { best: Score, at: int, alfa: Score, beta: Score, cut: bool },
    /// A search below ended otherwise than by a value.
    Ended(Verdict),
}

/// The result of a search of `depth` plies that prunes with the bounds
/// `alfa` and `beta`. It differs from `search` only in the choice among the
/// positions that follow: it stops as soon as the bounds meet.
pub open spec fn pruned_search(
    pos: Position,
    phase: GameState,
    depth: nat,
    index: int,
    maximizing: bool,
    alfa: Score,
    beta: Score,
    side: Player,
    round: u32,
    scores: spec_fn(Position, Player, u32) -> Score,
) -> Verdict
    decreases depth, 0int,
{
    if phase is Won {
        Verdict::Leaf(pos, phase, depth)
    } else if depth == 0 {
        Verdict::Eval(clipped(scores(pos, side, round)), index)
    } else {
        let follow = pos.successors(phase.to_move());
        if follow.len() == 0 {
            Verdict::DeadEnd(pos, phase)
        } else {
            match pruned_scan(
                follow,
                follow.len() as int,
                (depth - 1) as nat,
                maximizing,
                alfa,
                beta,
                side,
                round,
                scores,
            ) {
                Sweep::Going { best, at, .. } => Verdict::Eval(best, at),
                Sweep::Ended(ended) => ended,
            }
        }
    }
}

/// The choice among the first `n` of the positions `follow` in a search that
/// prunes. Each position is searched with the bounds as the positions before
/// it have left them. A value that is better than the best so far replaces
/// it; a value above `alfa` raises `alfa` for the side that maximizes, a
/// value below `beta` lowers `beta` for the side that minimizes.
pub open spec fn pruned_scan(
    follow: Seq<(Position, GameState)>,
    n: int,
    depth: nat,
    maximizing: bool,
    alfa: Score,
    beta: Score,
    side: Player,
    round: u32,
    scores: spec_fn(Position, Player, u32) -> Score,
) -> Sweep
    decreases depth, n + 1,
{
    if n <= 0 {
        Sweep::Going { best: worst(maximizing), at: 0, alfa, beta, cut: false }
    } else {
        match pruned_scan(follow, n - 1, depth, maximizing, alfa, beta, side, round, scores) {
            Sweep::Going { best, at, alfa: low, beta: high, cut } => if cut {
                Sweep::Going { best, at, alfa: low, beta: high, cut }
            } else {
                match pruned_search(
                    follow[n - 1].0,
                    follow[n - 1].1,
                    depth,
                    n - 1,
                    !maximizing,
                    low,
                    high,
                    side,
                    round,
                    scores,
                ) {
                    Verdict::Eval(value, _) => {
                        let low2 = if maximizing && low < value {
                            value
                        } else {
                            low
                        };
                        let high2 = if !maximizing && high > value {
                            value
                        } else {
                            high
                        };
                        if better(maximizing, value, best) {
                            Sweep::Going {
                                best: value,
                                at: n - 1,
                                alfa: low2,
                                beta: high2,
                                cut: high2 <= low2,
                            }
                        } else {
                            Sweep::Going { best, at, alfa: low2, beta: high2, cut: high2 <= low2 }
                        }
                    },
                    ended => Sweep::Ended(ended),
                }
            },
            ended => ended,
        }
    }
}

/// Once a choice has stopped, by a cut or by a search that ended otherwise,
/// it stays as it is however many more positions are looked at.
pub proof fn lemma_pruned_scan_stopped(
    follow: Seq<(Position, GameState)>,
    m: int,
    n: int,
    depth: nat,
    maximizing: bool,
    alfa: Score,
    beta: Score,
    side: Player,
    round: u32,
    scores: spec_fn(Position, Player, u32) -> Score,
)
    requires
        m <= n,
        match pruned_scan(follow, m, depth, maximizing, alfa, beta, side, round, scores) {
            Sweep::Going { cut, .. } => cut,
            Sweep::Ended(_) => true,
        },
    ensures
        pruned_scan(follow, n, depth, maximizing, alfa, beta, side, round, scores) == pruned_scan(
            follow,
            m,
            depth,
            maximizing,
            alfa,
            beta,
            side,
            round,
            scores,
        ),
    decreases n - m,
{
    if m < n {
        lemma_pruned_scan_stopped(follow, m, n - 1, depth, maximizing, alfa, beta, side, round, scores);
    }
}

/// Searches `current_depth` plies from `node`, pruning with the bounds
/// `alfa` and `beta`: the positions that follow a node are no longer looked
/// at once the bounds have met. The other arguments are those of
/// `minimax_inner`.
///
/// Whatever the evaluator answers, an ending that is returned is one that
/// the search can come upon. With a deterministic evaluator the result is
/// that of `pruned_search`.
#[verifier::rlimit(50)]
#[verifier::spinoff_prover]
pub fn alfa_beta_inner<H: Heuristic>(
    node: &mut DecisionTreeNode,
    current_depth: u32,
    heuristic: &mut H,
    node_index: usize,
    maximizing: bool,
    alfa: Score,
    beta: Score,
    player: Player,
    round_number: u32,
) -> (result: MinMaxResult)
    requires
        old(node).wf(),
    ensures
        search_frame(old(node), final(node), current_depth, result),
        first_ending(old(node).board_state@, old(node).game_state, current_depth as nat) is None
            ==> result is Eval,
        nothing_passed_over(true, current_depth, alfa, beta) ==> first_ending(
            old(node).board_state@,
            old(node).game_state,
            current_depth as nat,
        ) == (if result is Eval {
            None
        } else {
            Some(result@)
        }),
        old(heuristic).deterministic() ==> crate::heuristics::steady(old(heuristic), final(heuristic)),
        old(heuristic).deterministic() ==> result@ == pruned_search(
            old(node).board_state@,
            old(node).game_state,
            current_depth as nat,
            node_index as int,
            maximizing,
            alfa,
            beta,
            player,
            round_number,
            crate::heuristics::oracle(old(heuristic)),
        ),
    decreases current_depth,
{
    proof {
        crate::decision_tree::lemma_extends_self(node);
        lemma_stands_at(node.board_state@, node.game_state);
    }
    if let GameState::Won(_) = node.game_state {
        return MinMaxResult::Leaf(node.clone(), current_depth);
    }
    if current_depth == 0 {
        let value = clip(heuristic.evaluate(&node.board_state, player, round_number));
        return MinMaxResult::Eval(value, node_index);
    }
    expand(node);
    if node.children.len() == 0 {
        proof {
            lemma_stands_at(node.board_state@, node.game_state);
            assert(node.board_state@.successors(node.game_state.to_move()).len() == 0);
        }
        return MinMaxResult::DeadEnd(node.clone());
    }
    let ghost follow = node.board_state@.successors(node.game_state.to_move());
    let ghost scores = crate::heuristics::oracle(old(heuristic));
    let ghost start = *node;
    proof {
        assert forall|j: int| 0 <= j < start.children@.len() implies (
        #[trigger] start.children@[j]).extends(&start.children@[j]) by {
            crate::decision_tree::lemma_extends_self(&start.children@[j]);
        }
    }
    let mut low = alfa;
    let mut high = beta;
    let mut max_eval: Score = if maximizing {
        Score::MIN
    } else {
        Score::MAX
    };
    let mut max_child_index: usize = 0;
    let mut child_index: usize = 0;
    let count = node.children.len();
    let mut cut = false;
    while child_index < count && !cut
        invariant
            child_index <= count,
            count == node.children@.len(),
            count > 0,
            current_depth > 0,
            max_child_index < count,
            child_index == 0 ==> max_child_index == 0 && !cut,
            alfa == Score::MIN && beta == Score::MAX ==> !cut && low < Score::MAX && high
                > Score::MIN && (maximizing ==> high == Score::MAX) && (!maximizing ==> low
                == Score::MIN),
            nothing_passed_over(true, current_depth, alfa, beta) ==> scan(
                follow,
                child_index as int,
                (current_depth - 1) as nat,
                true,
                Player::Black,
                0,
                no_scores(),
            ) is Eval,
            child_index == 0 ==> max_eval == worst(maximizing),
            child_index > 0 ==> Score::MIN < max_eval < Score::MAX,
            child_index > 0 ==> !(follow[max_child_index as int].1 is Won),
            node.wf(),
            node.generated,
            old(node).generated ==> start == *old(node),
            start.generated,
            start.children@.len() == count,
            node.same_root(&start),
            forall|j: int|
                0 <= j < count ==> (#[trigger] node.children@[j]).extends(&start.children@[j]),
            forall|j: int| child_index <= j < count ==> #[trigger] node.children@[j] == start.children@[j],
            node.board_state == old(node).board_state,
            node.game_state == old(node).game_state,
            follow == node.board_state@.successors(node.game_state.to_move()),
            scores == crate::heuristics::oracle(old(heuristic)),
            old(heuristic).deterministic() ==> crate::heuristics::steady(old(heuristic), heuristic),
            old(heuristic).deterministic() ==> pruned_scan(
                follow,
                child_index as int,
                (current_depth - 1) as nat,
                maximizing,
                alfa,
                beta,
                player,
                round_number,
                scores,
            ) == (Sweep::Going { best: max_eval, at: max_child_index as int, alfa: low, beta: high, cut }),
        decreases count - child_index,
    {
        let ghost before = *node;
        let ghost asked = *heuristic;
        proof {
            crate::decision_tree::lemma_children_follow(node, child_index as int);
        }
        let minmax_inner_result = alfa_beta_inner(
            &mut node.children[child_index],
            current_depth - 1,
            heuristic,
            child_index,
            !maximizing,
            low,
            high,
            player,
            round_number,
        );
        proof {
            crate::decision_tree::lemma_children_follow(&before, child_index as int);
            crate::decision_tree::lemma_child_replaced(&before, node, child_index as int);
            lemma_ending_needs_no_scores(
                follow[child_index as int].0,
                follow[child_index as int].1,
                (current_depth - 1) as nat,
                child_index as int,
                false,
                Player::Black,
                0,
                no_scores(),
            );
            if first_ending(old(node).board_state@, old(node).game_state, current_depth as nat)
                is None {
                lemma_scan_prefix(
                    follow,
                    child_index as int,
                    count as int,
                    (current_depth - 1) as nat,
                    true,
                    Player::Black,
                    0,
                    no_scores(),
                );
            }
            assert forall|j: int| 0 <= j < count implies (#[trigger] node.children@[j]).extends(
                &start.children@[j],
            ) by {
                if j != child_index {
                    assert(node.children@[j] == before.children@[j]);
                }
            }
            assert forall|j: int| child_index + 1 <= j < count implies #[trigger] node.children@[j]
                == start.children@[j] by {
                assert(node.children@[j] == before.children@[j]);
            }
            if old(heuristic).deterministic() {
                crate::heuristics::lemma_steady_oracle(old(heuristic), &asked);
            }
        }
        match minmax_inner_result {
            MinMaxResult::Eval(child_eval, _) => {
                assert(!(follow[child_index as int].1 is Won));
                if maximizing {
                    if max_eval < child_eval {
                        max_eval = child_eval;
                        max_child_index = child_index;
                    }
                    if low < child_eval {
                        low = child_eval;
                    }
                } else {
                    if max_eval > child_eval {
                        max_eval = child_eval;
                        max_child_index = child_index;
                    }
                    if high > child_eval {
                        high = child_eval;
                    }
                }
            },
            MinMaxResult::Leaf(leaf, depth) => {
                proof {
                    crate::decision_tree::lemma_extends_by_children(node, &start);
                    if nothing_passed_over(true, current_depth, alfa, beta) {
                        lemma_scan_ended(
                            follow,
                            child_index + 1,
                            count as int,
                            (current_depth - 1) as nat,
                            true,
                            Player::Black,
                            0,
                            no_scores(),
                        );
                    }
                    lemma_comes_upon_below(
                        node.board_state@,
                        node.game_state,
                        current_depth as nat,
                        child_index as int,
                        minmax_inner_result@,
                    );
                    if old(heuristic).deterministic() {
                        lemma_pruned_scan_stopped(
                            follow,
                            child_index + 1,
                            count as int,
                            (current_depth - 1) as nat,
                            maximizing,
                            alfa,
                            beta,
                            player,
                            round_number,
                            scores,
                        );
                    }
                }
                return MinMaxResult::Leaf(leaf, depth);
            },
            MinMaxResult::DeadEnd(stuck) => {
                proof {
                    crate::decision_tree::lemma_extends_by_children(node, &start);
                    if nothing_passed_over(true, current_depth, alfa, beta) {
                        lemma_scan_ended(
                            follow,
                            child_index + 1,
                            count as int,
                            (current_depth - 1) as nat,
                            true,
                            Player::Black,
                            0,
                            no_scores(),
                        );
                    }
                    lemma_comes_upon_below(
                        node.board_state@,
                        node.game_state,
                        current_depth as nat,
                        child_index as int,
                        minmax_inner_result@,
                    );
                    if old(heuristic).deterministic() {
                        lemma_pruned_scan_stopped(
                            follow,
                            child_index + 1,
                            count as int,
                            (current_depth - 1) as nat,
                            maximizing,
                            alfa,
                            beta,
                            player,
                            round_number,
                            scores,
                        );
                    }
                }
                return MinMaxResult::DeadEnd(stuck);
            },
        }
        if high <= low {
            cut = true;
        }
        child_index += 1;
    }
    proof {
        if old(heuristic).deterministic() && cut {
            lemma_pruned_scan_stopped(
                follow,
                child_index as int,
                count as int,
                (current_depth - 1) as nat,
                maximizing,
                alfa,
                beta,
                player,
                round_number,
                scores,
            );
        }
    }
    proof {
        crate::decision_tree::lemma_children_follow(node, max_child_index as int);
        crate::decision_tree::lemma_extends_by_children(node, &start);
    }
    MinMaxResult::Eval(max_eval, max_child_index)
}

/// How a game ends.
pub enum Ending {
    /// The limit of rounds was reached before a search came upon a won
    /// position or upon one without a move.
    NoWinner,
    /// A search came upon the given won position, so many plies below its
    /// root, in the round of the given number (counting from 1).
    Winner(Position, GameState, nat, nat),
    /// A search came upon the given position, which is not won and in which
    /// the side to move has no move.
    DeadEnd(Position, GameState),
}

/// A game: the positions to which the round loop moved, one per round that
/// ended with a choice and was followed by another round, and how the game
/// ended.
pub struct Game {
    pub path: Seq<(Position, GameState)>,
    pub ending: Ending,
}

/// The search of one round, from the root, for the side that maximizes,
/// with the widest bounds where it prunes.
pub open spec fn round_search(
    pruned: bool,
    pos: Position,
    phase: GameState,
    depth: nat,
    side: Player,
    round: u32,
    scores: spec_fn(Position, Player, u32) -> Score,
) -> Verdict {
    if pruned {
        pruned_search(pos, phase, depth, 0, true, Score::MIN, Score::MAX, side, round, scores)
    } else {
        search(pos, phase, depth, 0, true, side, round, scores)
    }
}

/// The game that the round loop plays from a position, from the round
/// `round` on. In each round the side to move searches with its own
/// evaluator, the side that moved first with `first_scores`, the other with
/// `second_scores`. A choice moves the game to the chosen position if
/// another round follows; where the limit is reached the game ends where it
/// stands, on the root of the last search. A won position or one without a
/// move, wherever the search came upon it, ends the game too.
pub open spec fn play(
    pruned: bool,
    pos: Position,
    phase: GameState,
    depth: nat,
    limit: nat,
    round: nat,
    first: Player,
    first_scores: spec_fn(Position, Player, u32) -> Score,
    second_scores: spec_fn(Position, Player, u32) -> Score,
) -> Game
    decreases limit - round,
{
    if round >= limit {
        Game { path: Seq::empty(), ending: Ending::NoWinner }
    } else {
        let side = phase.to_move();
        let scores = if side == first {
            first_scores
        } else {
            second_scores
        };
        match round_search(pruned, pos, phase, depth, side, round as u32, scores) {
            Verdict::Eval(_, at) => if round + 1 >= limit {
                Game { path: Seq::empty(), ending: Ending::NoWinner }
            } else {
                let next = pos.successors(side)[at];
                let rest = play(
                    pruned,
                    next.0,
                    next.1,
                    depth,
                    limit,
                    round + 1,
                    first,
                    first_scores,
                    second_scores,
                );
                Game { path: seq![next] + rest.path, ending: rest.ending }
            },
            Verdict::Leaf(won, won_phase, left) => Game {
                path: Seq::empty(),
                ending: Ending::Winner(won, won_phase, (depth - left) as nat, round + 1),
            },
            Verdict::DeadEnd(stuck, stuck_phase) => Game {
                path: Seq::empty(),
                ending: Ending::DeadEnd(stuck, stuck_phase),
            },
        }
    }
}

/// The number of rounds after which the loop gives up: the limit that was
/// set, or else the greatest number of rounds that can be counted.
pub open spec fn round_cap(rounds_limit: Option<u32>) -> nat {
    match rounds_limit {
        Some(limit) => limit as nat,
        None => u32::MAX as nat,
    }
}

/// Where a game stands at its end: on the last position of its path, or on
/// the position it started from.
pub open spec fn standing(start: (Position, GameState), game: Game) -> (Position, GameState) {
    if game.path.len() == 0 {
        start
    } else {
        game.path.last()
    }
}

/// A position that is not won and in which the side to move has no move.
#[derive(Debug)]
pub struct NoLegalMove {
    pub node: DecisionTreeNode,
}

/// How a game ended, as the round loop reports it.
pub open spec fn reported(outcome: Result<Option<(DecisionTreeNode, u32, u32)>, NoLegalMove>) -> Ending {
    match outcome {
        Ok(None) => Ending::NoWinner,
        Ok(Some((node, plies, rounds))) => Ending::Winner(
            node.board_state@,
            node.game_state,
            plies as nat,
            rounds as nat,
        ),
        Err(stuck) => Ending::DeadEnd(stuck.node.board_state@, stuck.node.game_state),
    }
}

/// Whether the searches of a game are sure to look at every position that
/// the plain search looks at: they do not prune, or they are one ply deep
/// at most.
pub open spec fn in_full_sight(pruned: bool, depth: nat) -> bool {
    !pruned || depth <= 1
}

/// Whether a search of `depth` plies from the position ends with a value,
/// whatever the scores are.
pub open spec fn valued(at: Option<(Position, GameState)>, depth: nat) -> bool {
    at matches Some(root) && first_ending(root.0, root.1, depth) is None
}

/// The course of a game, whatever the evaluators answer.
///
/// `choices` holds the index of the child that the game moved to after each
/// round but the last: the game stands where these moves lead from the
/// start, and a round more was played than moves were made, unless none was
/// played at all. Without a winner, as many rounds were played as the
/// limit allows. A winner or a dead end is an ending that the last search
/// can come upon from the position where the game stands, and one is in
/// sight of the plain search from there. Where the searches are in full
/// sight, every round but the last ended with a value because no ending was
/// in sight, and the last round ended as `first_ending` says.
pub open spec fn course(
    pruned: bool,
    start: (Position, GameState),
    choices: Seq<int>,
    depth: nat,
    cap: nat,
    stand: (Position, GameState),
    ending: Ending,
) -> bool {
    &&& walk(start.0, start.1, choices) == Some(stand)
    &&& in_full_sight(pruned, depth) ==> forall|k: int|
        0 <= k < choices.len() ==> valued(#[trigger] walk(start.0, start.1, choices.take(k)), depth)
    &&& match ending {
        Ending::NoWinner => if cap == 0 {
            choices.len() == 0
        } else {
            choices.len() + 1 == cap && (in_full_sight(pruned, depth) ==> valued(
                Some(stand),
                depth,
            ))
        },
        Ending::Winner(won, won_phase, plies, rounds) => {
            let found = Verdict::Leaf(won, won_phase, (depth - plies) as nat);
            &&& rounds == choices.len() + 1
            &&& rounds <= cap
            &&& plies <= depth
            &&& comes_upon(stand.0, stand.1, depth, found)
            &&& first_ending(stand.0, stand.1, depth) is Some
            &&& in_full_sight(pruned, depth) ==> first_ending(stand.0, stand.1, depth) == Some(found)
        },
        Ending::DeadEnd(stuck, stuck_phase) => {
            let found = Verdict::DeadEnd(stuck, stuck_phase);
            &&& choices.len() + 1 <= cap
            &&& comes_upon(stand.0, stand.1, depth, found)
            &&& first_ending(stand.0, stand.1, depth) is Some
            &&& in_full_sight(pruned, depth) ==> first_ending(stand.0, stand.1, depth) == Some(found)
        },
    }
}

/// A move more leads from where a walk ends to the position that follows.
pub proof fn lemma_walk_on(pos: Position, phase: GameState, path: Seq<int>, i: int)
    requires
        walk(pos, phase, path) is Some,
        !(walk(pos, phase, path)->Some_0.1 is Won),
        0 <= i < walk(pos, phase, path)->Some_0.0.successors(
            walk(pos, phase, path)->Some_0.1.to_move(),
        ).len(),
    ensures
        walk(pos, phase, path.push(i)) == Some(
            walk(pos, phase, path)->Some_0.0.successors(
                walk(pos, phase, path)->Some_0.1.to_move(),
            )[i],
        ),
    decreases path.len(),
{
    let longer = path.push(i);
    if path.len() == 0 {
        let next = pos.successors(phase.to_move())[i];
        assert(longer[0] == i);
        assert(longer.drop_first() =~= Seq::<int>::empty());
        assert(walk(next.0, next.1, longer.drop_first()) == Some(next));
    } else {
        let next = pos.successors(phase.to_move())[path[0]];
        assert(longer[0] == path[0]);
        assert(longer.drop_first() =~= path.drop_first().push(i));
        assert(walk(pos, phase, path) == walk(next.0, next.1, path.drop_first()));
        lemma_walk_on(next.0, next.1, path.drop_first(), i);
    }
}

/// The game can be played from the node: the tree is well-formed and its
/// root is not won; a search of no ply chooses no move, so with such
/// searches at most one round is played; and where a search of one ply or
/// more is made, the side to move at the root has a move.
pub open spec fn can_play(node: &DecisionTreeNode, max_depth: u32, rounds_limit: Option<u32>) -> bool {
    &&& node.wf()
    &&& !(node.game_state is Won)
    &&& max_depth >= 1 || round_cap(rounds_limit) <= 1
    &&& max_depth >= 1 && round_cap(rounds_limit) >= 1 ==> node.board_state@.successors(
        node.game_state.to_move(),
    ).len() > 0
}

/// What the round loop leaves behind.
///
/// Whatever the evaluators answer: the tree is well-formed and its root is
/// not won; a limit of 0 rounds leaves the tree untouched and reports no
/// winner; without a winner after a round or more the root has been
/// searched, so it is generated as deep as the search went; the nodes that
/// are reported are trees of their own; and the game has taken a course as
/// `course` says. With deterministic evaluators the
/// report and the position of the root are those of `play` with their
/// scores.
pub open spec fn played_out(
    pruned: bool,
    before: &DecisionTreeNode,
    after: &DecisionTreeNode,
    max_depth: u32,
    rounds_limit: Option<u32>,
    deterministic: bool,
    first_scores: spec_fn(Position, Player, u32) -> Score,
    second_scores: spec_fn(Position, Player, u32) -> Score,
    outcome: Result<Option<(DecisionTreeNode, u32, u32)>, NoLegalMove>,
) -> bool {
    &&& after.wf()
    &&& !(after.game_state is Won)
    &&& rounds_limit == Some(0u32) ==> outcome == Ok::<
        Option<(DecisionTreeNode, u32, u32)>,
        NoLegalMove,
    >(None) && *after == *before
    &&& match outcome {
        Ok(None) => round_cap(rounds_limit) >= 1 ==> {
            &&& max_depth >= 1 ==> after.generated
            &&& !pruned ==> after.grown_to(max_depth as nat)
        },
        Ok(Some((won, _, _))) => won.wf(),
        Err(stuck) => stuck.node.wf() && stuck.node.generated && stuck.node.children@.len() == 0,
    }
    &&& exists|choices: Seq<int>| #[trigger]
        course(
            pruned,
            (before.board_state@, before.game_state),
            choices,
            max_depth as nat,
            round_cap(rounds_limit),
            (after.board_state@, after.game_state),
            reported(outcome),
        )
    &&& deterministic ==> {
        let game = play(
            pruned,
            before.board_state@,
            before.game_state,
            max_depth as nat,
            round_cap(rounds_limit),
            0,
            before.game_state.to_move(),
            first_scores,
            second_scores,
        );
        &&& reported(outcome) == game.ending
        &&& (after.board_state@, after.game_state) == standing(
            (before.board_state@, before.game_state),
            game,
        )
    }
}

/// What a game leaves behind in which each side has its own evaluator:
/// what `played_out` says of their scores; deterministic evaluators that
/// score as before; and with a limit of 0 rounds evaluators that are as
/// they were.
pub open spec fn played<A: Heuristic, B: Heuristic>(
    pruned: bool,
    before: &DecisionTreeNode,
    after: &DecisionTreeNode,
    max_depth: u32,
    rounds_limit: Option<u32>,
    first_before: &A,
    first_after: &A,
    second_before: &B,
    second_after: &B,
    outcome: Result<Option<(DecisionTreeNode, u32, u32)>, NoLegalMove>,
) -> bool {
    &&& played_out(
        pruned,
        before,
        after,
        max_depth,
        rounds_limit,
        first_before.deterministic() && second_before.deterministic(),
        crate::heuristics::oracle(first_before),
        crate::heuristics::oracle(second_before),
        outcome,
    )
    &&& first_before.deterministic() && second_before.deterministic() ==> {
        &&& crate::heuristics::steady(first_before, first_after)
        &&& crate::heuristics::steady(second_before, second_after)
    }
    &&& rounds_limit == Some(0u32) ==> *first_after == *first_before && *second_after
        == *second_before
}

/// What a game leaves behind in which one evaluator serves both sides.
pub open spec fn played_shared<H: Heuristic>(
    pruned: bool,
    before: &DecisionTreeNode,
    after: &DecisionTreeNode,
    max_depth: u32,
    rounds_limit: Option<u32>,
    heuristic_before: &H,
    heuristic_after: &H,
    outcome: Result<Option<(DecisionTreeNode, u32, u32)>, NoLegalMove>,
) -> bool {
    &&& played_out(
        pruned,
        before,
        after,
        max_depth,
        rounds_limit,
        heuristic_before.deterministic(),
        crate::heuristics::oracle(heuristic_before),
        crate::heuristics::oracle(heuristic_before),
        outcome,
    )
    &&& heuristic_before.deterministic() ==> crate::heuristics::steady(
        heuristic_before,
        heuristic_after,
    )
    &&& rounds_limit == Some(0u32) ==> *heuristic_after == *heuristic_before
}

/// The state of the round loop between two rounds.
#[derive(Debug)]
pub enum RoundState {
    /// No search was made yet.
    AwaitingSearch,
    /// The last search has chosen the child with the given index, for the
    /// given value. The game moves on to it when the next round begins.
    Evaluated(usize, Score),
    /// The last search has come upon a won position: its node, and how many
    /// plies below the root of the search it stands.
    Terminal(DecisionTreeNode, u32),
    /// The last search has come upon a position that is not won and in
    /// which the side to move has no move.
    DeadEnd(DecisionTreeNode),
    /// The limit of rounds was reached.
    OutOfRounds,
}

/// How far a game has come: the number of searches that were made, and the
/// state that the last of them has left.
#[derive(Debug)]
pub struct Progress {
    pub rounds: u32,
    pub state: RoundState,
}

impl RoundState {
    /// The result of the search that has left the state, if one has.
    pub open spec fn verdict(&self, max_depth: u32) -> Option<Verdict> {
        match self {
            RoundState::Evaluated(child, value) => Some(Verdict::Eval(*value, *child as int)),
            RoundState::Terminal(won, plies) => Some(
                Verdict::Leaf(won.board_state@, won.game_state, (max_depth - *plies) as nat),
            ),
            RoundState::DeadEnd(stuck) => Some(
                Verdict::DeadEnd(stuck.board_state@, stuck.game_state),
            ),
            _ => None,
        }
    }
}

impl Progress {
    /// A round can be played from here: the tree is well-formed and its
    /// root is not won; searches of no ply are made in one round at most;
    /// before the first search the root has a move where a search of one
    /// ply or more is to be made; after a search that has chosen, the chosen
    /// child is there and not won, unless the limit is reached.
    pub open spec fn ready(
        &self,
        node: &DecisionTreeNode,
        max_depth: u32,
        rounds_limit: Option<u32>,
    ) -> bool {
        &&& node.wf()
        &&& !(node.game_state is Won)
        &&& max_depth >= 1 || round_cap(rounds_limit) <= 1
        &&& match self.state {
            RoundState::AwaitingSearch => self.rounds == 0 && can_play(
                node,
                max_depth,
                rounds_limit,
            ),
            RoundState::Evaluated(child, _) => self.rounds >= 1 && (self.rounds < round_cap(
                rounds_limit,
            ) ==> node.generated && child < node.children@.len() && !(node.children@[child as int].game_state
                is Won)),
            _ => false,
        }
    }

    /// The position from which the next search is made: the child that was
    /// chosen, or the root where nothing was chosen yet.
    pub open spec fn search_root(&self, node: &DecisionTreeNode) -> (Position, GameState) {
        match self.state {
            RoundState::Evaluated(child, _) => (
                node.children@[child as int].board_state@,
                node.children@[child as int].game_state,
            ),
            _ => (node.board_state@, node.game_state),
        }
    }
}

/// What a round leaves behind.
///
/// Where the limit is reached, nothing changes and the state says so.
/// Otherwise the game has moved on to the child that was chosen before, if
/// one was, and a search was made from there: the tree is well-formed, its
/// root is the root of that search and not won, and the count of searches
/// is one more. The state holds the result of the search: after a choice
/// of a search of one ply or more the chosen child is there and not won,
/// and where the search does not prune the tree is generated as deep as it
/// went;
/// an ending is one that the search can come upon, and its node is a tree
/// of its own. No ending is returned where none is in sight of the plain
/// search, and a search in full sight ends as `first_ending` says. With a
/// deterministic evaluator the result is that of `round_search`.
pub open spec fn round_played(
    pruned: bool,
    before: &DecisionTreeNode,
    after: &DecisionTreeNode,
    max_depth: u32,
    rounds_limit: Option<u32>,
    progress: Progress,
    next: Progress,
    deterministic: bool,
    scores: spec_fn(Position, Player, u32) -> Score,
) -> bool {
    if progress.rounds >= round_cap(rounds_limit) {
        &&& next.state is OutOfRounds
        &&& next.rounds == progress.rounds
        &&& *after == *before
    } else {
        let root = progress.search_root(before);
        &&& next.rounds == progress.rounds + 1
        &&& after.wf()
        &&& (after.board_state@, after.game_state) == root
        &&& !(after.game_state is Won)
        &&& progress.state is AwaitingSearch ==> after.extends(before)
        &&& next.state.verdict(max_depth) matches Some(found) && {
            &&& comes_upon(root.0, root.1, max_depth as nat, found)
            &&& first_ending(root.0, root.1, max_depth as nat) is None ==> found is Eval
            &&& in_full_sight(pruned, max_depth as nat) ==> first_ending(
                root.0,
                root.1,
                max_depth as nat,
            ) == (if found is Eval {
                None
            } else {
                Some(found)
            })
            &&& deterministic ==> found == round_search(
                pruned,
                root.0,
                root.1,
                max_depth as nat,
                root.1.to_move(),
                progress.rounds,
                scores,
            )
        }
        &&& match next.state {
            RoundState::Evaluated(child, _) => (!pruned ==> after.grown_to(max_depth as nat)) && (
            max_depth >= 1 ==> after.generated && child < after.children@.len()
                && !(after.children@[child as int].game_state is Won)),
            RoundState::Terminal(won, plies) => won.wf() && plies <= max_depth,
            RoundState::DeadEnd(stuck) => stuck.wf() && stuck.generated && stuck.children@.len()
                == 0,
            _ => false,
        }
    }
}

/// Whether the limit of rounds is reached after `rounds` searches: the limit
/// that was set, or else the greatest number of rounds that can be counted.
pub fn out_of_rounds(rounds_limit: Option<u32>, rounds: u32) -> (out: bool)
    ensures
        out == (rounds >= round_cap(rounds_limit)),
{
    match rounds_limit {
        Some(limit) => rounds >= limit,
        None => rounds == u32::MAX,
    }
}

/// Makes the child with the given index the new root. Its siblings and
/// their subtrees are dropped.
pub fn reroot(node: &mut DecisionTreeNode, index: usize)
    requires
        index < old(node).children@.len(),
    ensures
        *final(node) == old(node).children@[index as int],
{
    let child = node.children.swap_remove(index);
    *node = child;
}

/// Plays one round, unless the limit is reached: the game moves on to the
/// child that the search before has chosen, if there was one, and the side
/// to move searches `max_depth` plies deep with its evaluator. The side
/// `first` is served by `first_heuristic`; the other side by
/// `second_heuristic`, unless the first is `shared` and serves both.
#[verifier::rlimit(50)]
#[verifier::spinoff_prover]
fn round_step<A: Heuristic, B: Heuristic>(
    node: &mut DecisionTreeNode,
    max_depth: u32,
    first_heuristic: &mut A,
    second_heuristic: &mut B,
    first: Player,
    rounds_limit: Option<u32>,
    progress: Progress,
    pruned: bool,
    shared: bool,
) -> (next: Progress)
    requires
        progress.ready(old(node), max_depth, rounds_limit),
    ensures
        progress.rounds >= round_cap(rounds_limit) ==> {
            &&& round_played(
                pruned,
                old(node),
                final(node),
                max_depth,
                rounds_limit,
                progress,
                next,
                false,
                crate::heuristics::oracle(old(first_heuristic)),
            )
            &&& *final(first_heuristic) == *old(first_heuristic)
            &&& *final(second_heuristic) == *old(second_heuristic)
        },
        progress.rounds < round_cap(rounds_limit) && (shared || progress.search_root(
            old(node),
        ).1.to_move() == first) ==> {
            &&& round_played(
                pruned,
                old(node),
                final(node),
                max_depth,
                rounds_limit,
                progress,
                next,
                old(first_heuristic).deterministic(),
                crate::heuristics::oracle(old(first_heuristic)),
            )
            &&& old(first_heuristic).deterministic() ==> crate::heuristics::steady(
                old(first_heuristic),
                final(first_heuristic),
            )
            &&& *final(second_heuristic) == *old(second_heuristic)
        },
        progress.rounds < round_cap(rounds_limit) && !(shared || progress.search_root(
            old(node),
        ).1.to_move() == first) ==> {
            &&& round_played(
                pruned,
                old(node),
                final(node),
                max_depth,
                rounds_limit,
                progress,
                next,
                old(second_heuristic).deterministic(),
                crate::heuristics::oracle(old(second_heuristic)),
            )
            &&& old(second_heuristic).deterministic() ==> crate::heuristics::steady(
                old(second_heuristic),
                final(second_heuristic),
            )
            &&& *final(first_heuristic) == *old(first_heuristic)
        },
{
    if out_of_rounds(rounds_limit, progress.rounds) {
        return Progress { rounds: progress.rounds, state: RoundState::OutOfRounds };
    }
    match &progress.state {
        RoundState::Evaluated(eval_node, _) => {
            proof {
                crate::decision_tree::lemma_children_follow(node, *eval_node as int);
            }
            reroot(node, *eval_node);
        },
        _ => {
            proof {
                crate::decision_tree::lemma_extends_self(node);
            }
        },
    }
    let side = next_player(node.game_state);
    let result = if shared || side == first {
        round_of(node, max_depth, first_heuristic, side, progress.rounds, pruned)
    } else {
        round_of(node, max_depth, second_heuristic, side, progress.rounds, pruned)
    };
    let state = match result {
        MinMaxResult::Eval(eval, eval_node) => RoundState::Evaluated(eval_node, eval),
        MinMaxResult::Leaf(final_node, from_depth) => RoundState::Terminal(
            final_node,
            max_depth - from_depth,
        ),
        MinMaxResult::DeadEnd(stuck) => RoundState::DeadEnd(stuck),
    };
    Progress { rounds: progress.rounds + 1, state }
}

/// Plays one round of a game in which each side has its own evaluator,
/// unless the limit of rounds is reached: the game moves on to the child
/// that the search before has chosen, if there was one, and the side to
/// move searches `max_depth` plies deep, with pruning if `pruned` is set.
/// The first evaluator of `heuristics` serves the side `first`, the second
/// the other side.
pub fn play_round<A: Heuristic, B: Heuristic>(
    node: &mut DecisionTreeNode,
    max_depth: u32,
    heuristics: (&mut A, &mut B),
    first: Player,
    rounds_limit: Option<u32>,
    progress: Progress,
    pruned: bool,
) -> (next: Progress)
    requires
        progress.ready(old(node), max_depth, rounds_limit),
    ensures
        progress.rounds >= round_cap(rounds_limit) ==> {
            &&& round_played(
                pruned,
                old(node),
                final(node),
                max_depth,
                rounds_limit,
                progress,
                next,
                false,
                crate::heuristics::oracle(old(heuristics.0)),
            )
            &&& *final(heuristics.0) == *old(heuristics.0)
            &&& *final(heuristics.1) == *old(heuristics.1)
        },
        progress.rounds < round_cap(rounds_limit) && progress.search_root(old(node)).1.to_move()
            == first ==> {
            &&& round_played(
                pruned,
                old(node),
                final(node),
                max_depth,
                rounds_limit,
                progress,
                next,
                old(heuristics.0).deterministic(),
                crate::heuristics::oracle(old(heuristics.0)),
            )
            &&& old(heuristics.0).deterministic() ==> crate::heuristics::steady(
                old(heuristics.0),
                final(heuristics.0),
            )
            &&& *final(heuristics.1) == *old(heuristics.1)
        },
        progress.rounds < round_cap(rounds_limit) && progress.search_root(old(node)).1.to_move()
            != first ==> {
            &&& round_played(
                pruned,
                old(node),
                final(node),
                max_depth,
                rounds_limit,
                progress,
                next,
                old(heuristics.1).deterministic(),
                crate::heuristics::oracle(old(heuristics.1)),
            )
            &&& old(heuristics.1).deterministic() ==> crate::heuristics::steady(
                old(heuristics.1),
                final(heuristics.1),
            )
            &&& *final(heuristics.0) == *old(heuristics.0)
        },
{
    round_step(
        node,
        max_depth,
        heuristics.0,
        heuristics.1,
        first,
        rounds_limit,
        progress,
        pruned,
        false,
    )
}

/// The course of a game so far, whatever the evaluators answer: as
/// `course`, after `rounds` searches that all ended with a value.
pub open spec fn course_so_far(
    pruned: bool,
    start: (Position, GameState),
    choices: Seq<int>,
    depth: nat,
    stand: (Position, GameState),
    rounds: nat,
) -> bool {
    &&& walk(start.0, start.1, choices) == Some(stand)
    &&& in_full_sight(pruned, depth) ==> forall|k: int|
        0 <= k < choices.len() ==> valued(#[trigger] walk(start.0, start.1, choices.take(k)), depth)
    &&& if rounds == 0 {
        choices.len() == 0
    } else {
        choices.len() + 1 == rounds && (in_full_sight(pruned, depth) ==> valued(Some(stand), depth))
    }
}

/// The choices of a game after one round more: the choice that was pending
/// is made, unless the limit is reached.
pub open spec fn choices_after(was: Progress, cap: nat, choices: Seq<int>) -> Seq<int> {
    match was.state {
        RoundState::Evaluated(child, _) => if was.rounds < cap {
            choices.push(child as int)
        } else {
            choices
        },
        _ => choices,
    }
}

/// The path of a game after one round more.
pub open spec fn path_after(
    was: Progress,
    cap: nat,
    path: Seq<(Position, GameState)>,
    stand: (Position, GameState),
) -> Seq<(Position, GameState)> {
    match was.state {
        RoundState::Evaluated(_, _) => if was.rounds < cap {
            path.push(stand)
        } else {
            path
        },
        _ => path,
    }
}

/// How the game has ended, by the state that the last round has left.
pub open spec fn ending_of(next: Progress) -> Ending {
    match next.state {
        RoundState::Terminal(won, plies) => Ending::Winner(
            won.board_state@,
            won.game_state,
            plies as nat,
            next.rounds as nat,
        ),
        RoundState::DeadEnd(stuck) => Ending::DeadEnd(stuck.board_state@, stuck.game_state),
        _ => Ending::NoWinner,
    }
}

/// A round takes the course of a game one step on, or ends it.
#[verifier::rlimit(50)]
proof fn lemma_course_goes_on(
    pruned: bool,
    start: (Position, GameState),
    choices: Seq<int>,
    max_depth: u32,
    rounds_limit: Option<u32>,
    before: DecisionTreeNode,
    after: DecisionTreeNode,
    was: Progress,
    next: Progress,
    deterministic: bool,
    scores: spec_fn(Position, Player, u32) -> Score,
)
    requires
        was.ready(&before, max_depth, rounds_limit),
        was.rounds <= round_cap(rounds_limit),
        course_so_far(
            pruned,
            start,
            choices,
            max_depth as nat,
            (before.board_state@, before.game_state),
            was.rounds as nat,
        ),
        round_played(
            pruned,
            &before,
            &after,
            max_depth,
            rounds_limit,
            was,
            next,
            deterministic,
            scores,
        ),
    ensures
        !(next.state is AwaitingSearch),
        next.state is Evaluated ==> next.ready(&after, max_depth, rounds_limit) && next.rounds
            <= round_cap(rounds_limit) && course_so_far(
            pruned,
            start,
            choices_after(was, round_cap(rounds_limit), choices),
            max_depth as nat,
            (after.board_state@, after.game_state),
            next.rounds as nat,
        ),
        !(next.state is Evaluated) ==> course(
            pruned,
            start,
            choices_after(was, round_cap(rounds_limit), choices),
            max_depth as nat,
            round_cap(rounds_limit),
            (after.board_state@, after.game_state),
            ending_of(next),
        ),
{
    let cap = round_cap(rounds_limit);
    let depth = max_depth as nat;
    let here = (before.board_state@, before.game_state);
    assert(choices.take(choices.len() as int) =~= choices);
    if was.rounds < cap {
        if let RoundState::Evaluated(child, _) = was.state {
            crate::decision_tree::lemma_children_follow(&before, child as int);
            lemma_walk_on(start.0, start.1, choices, child as int);
            let longer = choices.push(child as int);
            assert(longer.take(longer.len() as int) =~= longer);
            if in_full_sight(pruned, depth) {
                assert forall|k: int| 0 <= k < longer.len() implies valued(
                    #[trigger] walk(start.0, start.1, longer.take(k)),
                    depth,
                ) by {
                    if k < choices.len() {
                        assert(longer.take(k) =~= choices.take(k));
                    } else {
                        assert(longer.take(k) =~= choices);
                    }
                }
            }
        }
    }
}

/// The game of deterministic evaluators so far: the whole game is the path
/// so far, followed by the game that is played on from where it stands,
/// and the last search has ended as `round_search` says.
pub open spec fn play_so_far(
    pruned: bool,
    start: (Position, GameState),
    depth: nat,
    cap: nat,
    first: Player,
    first_scores: spec_fn(Position, Player, u32) -> Score,
    second_scores: spec_fn(Position, Player, u32) -> Score,
    path: Seq<(Position, GameState)>,
    stand: (Position, GameState),
    progress: Progress,
    max_depth: u32,
) -> bool {
    let whole = play(pruned, start.0, start.1, depth, cap, 0, first, first_scores, second_scores);
    let rest = play(
        pruned,
        stand.0,
        stand.1,
        depth,
        cap,
        searched(progress.rounds),
        first,
        first_scores,
        second_scores,
    );
    &&& whole == Game { path: path + rest.path, ending: rest.ending }
    &&& stand == standing(start, Game { path, ending: Ending::NoWinner })
    &&& progress.rounds >= 1 ==> progress.state.verdict(max_depth) == Some(
        round_search(
            pruned,
            stand.0,
            stand.1,
            depth,
            stand.1.to_move(),
            (progress.rounds - 1) as u32,
            if stand.1.to_move() == first {
                first_scores
            } else {
                second_scores
            },
        ),
    )
}

/// A round takes the game of deterministic evaluators one step on, or ends
/// it as `play` says. `moved` is the position from which the search of the
/// round was made, and `next` what the round has left.
#[verifier::rlimit(50)]
proof fn lemma_play_goes_on(
    pruned: bool,
    start: (Position, GameState),
    path: Seq<(Position, GameState)>,
    max_depth: u32,
    rounds_limit: Option<u32>,
    first: Player,
    first_scores: spec_fn(Position, Player, u32) -> Score,
    second_scores: spec_fn(Position, Player, u32) -> Score,
    here: (Position, GameState),
    moved: (Position, GameState),
    was: Progress,
    next: Progress,
)
    requires
        was.rounds <= round_cap(rounds_limit),
        was.state is AwaitingSearch || was.state is Evaluated,
        was.state is AwaitingSearch <==> was.rounds == 0,
        play_so_far(
            pruned,
            start,
            max_depth as nat,
            round_cap(rounds_limit),
            first,
            first_scores,
            second_scores,
            path,
            here,
            was,
            max_depth,
        ),
        was.rounds >= round_cap(rounds_limit) ==> next.state is OutOfRounds && moved == here,
        next.state matches RoundState::Terminal(_, plies) ==> plies <= max_depth,
        was.rounds < round_cap(rounds_limit) ==> {
            &&& was.state matches RoundState::Evaluated(child, _) ==> moved == here.0.successors(
                here.1.to_move(),
            )[child as int]
            &&& was.state is AwaitingSearch ==> moved == here
            &&& next.rounds == was.rounds + 1
            &&& next.state.verdict(max_depth) == Some(
                round_search(
                    pruned,
                    moved.0,
                    moved.1,
                    max_depth as nat,
                    moved.1.to_move(),
                    was.rounds,
                    if moved.1.to_move() == first {
                        first_scores
                    } else {
                        second_scores
                    },
                ),
            )
        },
    ensures
        next.state is Evaluated ==> play_so_far(
            pruned,
            start,
            max_depth as nat,
            round_cap(rounds_limit),
            first,
            first_scores,
            second_scores,
            path_after(was, round_cap(rounds_limit), path, moved),
            moved,
            next,
            max_depth,
        ),
        !(next.state is Evaluated) ==> {
            let whole = play(
                pruned,
                start.0,
                start.1,
                max_depth as nat,
                round_cap(rounds_limit),
                0,
                first,
                first_scores,
                second_scores,
            );
            &&& whole.ending == ending_of(next)
            &&& moved == standing(start, whole)
        },
{
    let cap = round_cap(rounds_limit);
    let depth = max_depth as nat;
    let whole = play(pruned, start.0, start.1, depth, cap, 0, first, first_scores, second_scores);
    let from_here = play(
        pruned,
        here.0,
        here.1,
        depth,
        cap,
        searched(was.rounds),
        first,
        first_scores,
        second_scores,
    );
    assert(path + Seq::<(Position, GameState)>::empty() =~= path);
    if was.rounds >= cap {
        // The game ends where it stands.
        assert(from_here.path =~= Seq::<(Position, GameState)>::empty());
        assert(from_here.ending is NoWinner);
    } else {
        let rest = play(
            pruned,
            moved.0,
            moved.1,
            depth,
            cap,
            was.rounds as nat,
            first,
            first_scores,
            second_scores,
        );
        let longer = path_after(was, cap, path, moved);
        if was.state is Evaluated {
            assert(from_here == Game { path: seq![moved] + rest.path, ending: rest.ending });
            assert(path + (seq![moved] + rest.path) =~= path.push(moved) + rest.path);
        } else {
            assert(from_here == rest);
        }
        assert(whole == Game { path: longer + rest.path, ending: rest.ending });
        assert(moved == standing(start, Game { path: longer, ending: Ending::NoWinner }));
        assert(searched(next.rounds) == was.rounds);
        if !(next.state is Evaluated) {
            assert(rest.path =~= Seq::<(Position, GameState)>::empty());
            assert(longer + rest.path =~= longer);
        }
    }
}

/// Plays rounds from `node` until a search comes upon a won position or
/// upon one without a move, or until the limit of rounds is reached. The
/// side that moves first is served by `first_heuristic`; the other side by
/// `second_heuristic`, unless the first is `shared` and serves both.
#[verifier::rlimit(50)]
#[verifier::spinoff_prover]
fn play_rounds<A: Heuristic, B: Heuristic>(
    node: &mut DecisionTreeNode,
    max_depth: u32,
    first_heuristic: &mut A,
    second_heuristic: &mut B,
    rounds_limit: Option<u32>,
    pruned: bool,
    shared: bool,
) -> (outcome: Result<Option<(DecisionTreeNode, u32, u32)>, NoLegalMove>)
    requires
        can_play(old(node), max_depth, rounds_limit),
    ensures
        played_out(
            pruned,
            old(node),
            final(node),
            max_depth,
            rounds_limit,
            old(first_heuristic).deterministic() && (shared || old(second_heuristic).deterministic()),
            crate::heuristics::oracle(old(first_heuristic)),
            if shared {
                crate::heuristics::oracle(old(first_heuristic))
            } else {
                crate::heuristics::oracle(old(second_heuristic))
            },
            outcome,
        ),
        old(first_heuristic).deterministic() && (shared || old(second_heuristic).deterministic())
            ==> crate::heuristics::steady(old(first_heuristic), final(first_heuristic)),
        old(first_heuristic).deterministic() && !shared && old(second_heuristic).deterministic()
            ==> crate::heuristics::steady(old(second_heuristic), final(second_heuristic)),
        rounds_limit == Some(0u32) ==> *final(first_heuristic) == *old(first_heuristic)
            && *final(second_heuristic) == *old(second_heuristic),
{
    let first = next_player(node.game_state);
    let ghost cap = round_cap(rounds_limit);
    let ghost depth = max_depth as nat;
    let ghost steady_both = old(first_heuristic).deterministic() && (shared || old(
        second_heuristic,
    ).deterministic());
    let ghost first_scores = crate::heuristics::oracle(old(first_heuristic));
    let ghost second_scores = if shared {
        crate::heuristics::oracle(old(first_heuristic))
    } else {
        crate::heuristics::oracle(old(second_heuristic))
    };
    let ghost start = (old(node).board_state@, old(node).game_state);
    let ghost mut path: Seq<(Position, GameState)> = Seq::empty();
    let ghost mut choices: Seq<int> = Seq::empty();
    let mut progress = Progress { rounds: 0, state: RoundState::AwaitingSearch };
    proof {
        assert(walk(start.0, start.1, choices) == Some(start));
        assert(path + play(
            pruned,
            start.0,
            start.1,
            depth,
            cap,
            0,
            first,
            first_scores,
            second_scores,
        ).path =~= play(
            pruned,
            start.0,
            start.1,
            depth,
            cap,
            0,
            first,
            first_scores,
            second_scores,
        ).path);
    }
    loop
        invariant
            progress.ready(node, max_depth, rounds_limit),
            progress.rounds <= cap,
            cap == round_cap(rounds_limit),
            depth == max_depth,
            first == old(node).game_state.to_move(),
            start == (old(node).board_state@, old(node).game_state),
            progress.rounds == 0 ==> *node == *old(node) && *first_heuristic == *old(first_heuristic)
                && *second_heuristic == *old(second_heuristic),
            progress.rounds >= 1 && max_depth >= 1 ==> node.generated,
            progress.rounds >= 1 && !pruned ==> node.grown_to(depth),
            course_so_far(
                pruned,
                start,
                choices,
                depth,
                (node.board_state@, node.game_state),
                progress.rounds as nat,
            ),
            first_scores == crate::heuristics::oracle(old(first_heuristic)),
            second_scores == (if shared {
                crate::heuristics::oracle(old(first_heuristic))
            } else {
                crate::heuristics::oracle(old(second_heuristic))
            }),
            steady_both == (old(first_heuristic).deterministic() && (shared || old(
                second_heuristic,
            ).deterministic())),
            steady_both ==> crate::heuristics::steady(old(first_heuristic), first_heuristic),
            steady_both && !shared ==> crate::heuristics::steady(
                old(second_heuristic),
                second_heuristic,
            ),
            steady_both ==> play_so_far(
                pruned,
                start,
                depth,
                cap,
                first,
                first_scores,
                second_scores,
                path,
                (node.board_state@, node.game_state),
                progress,
                max_depth,
            ),
        decreases cap - progress.rounds,
    {
        let ghost was = progress;
        let ghost before = *node;
        let ghost asked_first = *first_heuristic;
        let ghost asked_second = *second_heuristic;
        let next = round_step(
            node,
            max_depth,
            first_heuristic,
            second_heuristic,
            first,
            rounds_limit,
            progress,
            pruned,
            shared,
        );
        proof {
            let used_first = shared || was.search_root(&before).1.to_move() == first;
            let scores = if used_first {
                crate::heuristics::oracle(&asked_first)
            } else {
                crate::heuristics::oracle(&asked_second)
            };
            let sure = was.rounds < cap && (if used_first {
                asked_first.deterministic()
            } else {
                asked_second.deterministic()
            });
            lemma_course_goes_on(
                pruned,
                start,
                choices,
                max_depth,
                rounds_limit,
                before,
                *node,
                was,
                next,
                sure,
                if was.rounds < cap {
                    scores
                } else {
                    crate::heuristics::oracle(&asked_first)
                },
            );
            if steady_both {
                crate::heuristics::lemma_steady_oracle(old(first_heuristic), &asked_first);
                if !shared {
                    crate::heuristics::lemma_steady_oracle(old(second_heuristic), &asked_second);
                }
                if was.rounds < cap {
                    if let RoundState::Evaluated(child, _) = was.state {
                        crate::decision_tree::lemma_children_follow(&before, child as int);
                    }
                }
                lemma_play_goes_on(
                    pruned,
                    start,
                    path,
                    max_depth,
                    rounds_limit,
                    first,
                    first_scores,
                    second_scores,
                    (before.board_state@, before.game_state),
                    (node.board_state@, node.game_state),
                    was,
                    next,
                );
            }
            choices = choices_after(was, cap, choices);
            path = path_after(was, cap, path, (node.board_state@, node.game_state));
        }
        match next.state {
            RoundState::Evaluated(child, value) => {
                progress = Progress { rounds: next.rounds, state: RoundState::Evaluated(child, value) };
            },
            RoundState::Terminal(final_node, plies) => {
                return Ok(Some((final_node, plies, next.rounds)));
            },
            RoundState::DeadEnd(stuck) => {
                return Err(NoLegalMove { node: stuck });
            },
            _ => {
                return Ok(None);
            },
        }
    }
}

/// The number of the round whose search was made last, after so many
/// searches: rounds are counted from 0.
pub open spec fn searched(rounds: u32) -> nat {
    if rounds == 0 {
        0
    } else {
        (rounds - 1) as nat
    }
}

/// One round: a search of `max_depth` plies from the root for `side`, the
/// side that maximizes.
pub fn round_of<H: Heuristic>(
    node: &mut DecisionTreeNode,
    max_depth: u32,
    heuristic: &mut H,
    side: Player,
    round_number: u32,
    pruned: bool,
) -> (result: MinMaxResult)
    requires
        old(node).wf(),
    ensures
        search_frame(old(node), final(node), max_depth, result),
        !pruned && result is Eval ==> final(node).grown_to(max_depth as nat),
        first_ending(old(node).board_state@, old(node).game_state, max_depth as nat) is None
            ==> result is Eval,
        in_full_sight(pruned, max_depth as nat) ==> first_ending(
            old(node).board_state@,
            old(node).game_state,
            max_depth as nat,
        ) == (
        if result is Eval {
            None
        } else {
            Some(result@)
        }),
        old(heuristic).deterministic() ==> crate::heuristics::steady(old(heuristic), final(heuristic)),
        old(heuristic).deterministic() ==> result@ == round_search(
            pruned,
            old(node).board_state@,
            old(node).game_state,
            max_depth as nat,
            side,
            round_number,
            crate::heuristics::oracle(old(heuristic)),
        ),
{
    if pruned {
        alfa_beta_inner(
            node,
            max_depth,
            heuristic,
            0,
            true,
            Score::MIN,
            Score::MAX,
            side,
            round_number,
        )
    } else {
        minimax_inner(node, max_depth, heuristic, 0, true, side, round_number)
    }
}

/// Plays a game from `node` with a plain search of `max_depth` plies in
/// each round. The first evaluator of `heuristics` serves the side that
/// moves first, the second the other side.
pub fn minimax<A: Heuristic, B: Heuristic>(
    node: &mut DecisionTreeNode,
    max_depth: u32,
    heuristics: (&mut A, &mut B),
    rounds_limit: Option<u32>,
) -> (outcome: Result<Option<(DecisionTreeNode, u32, u32)>, NoLegalMove>)
    requires
        can_play(old(node), max_depth, rounds_limit),
    ensures
        played(
            false,
            old(node),
            final(node),
            max_depth,
            rounds_limit,
            old(heuristics.0),
            final(heuristics.0),
            old(heuristics.1),
            final(heuristics.1),
            outcome,
        ),
{
    play_rounds(node, max_depth, heuristics.0, heuristics.1, rounds_limit, false, false)
}

/// Plays a game from `node` with a search of `max_depth` plies in each
/// round that prunes. The first evaluator of `heuristics` serves the side
/// that moves first, the second the other side.
pub fn alfa_beta<A: Heuristic, B: Heuristic>(
    node: &mut DecisionTreeNode,
    max_depth: u32,
    heuristics: (&mut A, &mut B),
    rounds_limit: Option<u32>,
) -> (outcome: Result<Option<(DecisionTreeNode, u32, u32)>, NoLegalMove>)
    requires
        can_play(old(node), max_depth, rounds_limit),
    ensures
        played(
            true,
            old(node),
            final(node),
            max_depth,
            rounds_limit,
            old(heuristics.0),
            final(heuristics.0),
            old(heuristics.1),
            final(heuristics.1),
            outcome,
        ),
{
    play_rounds(node, max_depth, heuristics.0, heuristics.1, rounds_limit, true, false)
}

/// An evaluator that is never asked: it stands in where one evaluator
/// serves both sides. It scores every position 0 and has no name.
struct Idle;

impl Heuristic for Idle {
    open spec fn deterministic(&self) -> bool {
        true
    }

    open spec fn score(&self, position: Position, player: Player, round: u32) -> Score {
        0
    }

    fn evaluate(
        &mut self,
        board_state: &crate::halma::BoardState,
        evaluating_player: Player,
        round_number: u32,
    ) -> (s: Score) {
        0
    }

    fn name(&self) -> (name: String)
        ensures
            name@ == Seq::<char>::empty(),
    {
        String::new()
    }
}

/// Plays a game from `node` with a plain search of `max_depth` plies in
/// each round, in which `heuristic` serves both sides.
pub fn minimax_shared<H: Heuristic>(
    node: &mut DecisionTreeNode,
    max_depth: u32,
    heuristic: &mut H,
    rounds_limit: Option<u32>,
) -> (outcome: Result<Option<(DecisionTreeNode, u32, u32)>, NoLegalMove>)
    requires
        can_play(old(node), max_depth, rounds_limit),
    ensures
        played_shared(
            false,
            old(node),
            final(node),
            max_depth,
            rounds_limit,
            old(heuristic),
            final(heuristic),
            outcome,
        ),
{
    let mut idle = Idle;
    play_rounds(node, max_depth, heuristic, &mut idle, rounds_limit, false, true)
}

/// Plays a game from `node` with a search of `max_depth` plies in each
/// round that prunes, in which `heuristic` serves both sides.
pub fn alfa_beta_shared<H: Heuristic>(
    node: &mut DecisionTreeNode,
    max_depth: u32,
    heuristic: &mut H,
    rounds_limit: Option<u32>,
) -> (outcome: Result<Option<(DecisionTreeNode, u32, u32)>, NoLegalMove>)
    requires
        can_play(old(node), max_depth, rounds_limit),
    ensures
        played_shared(
            true,
            old(node),
            final(node),
            max_depth,
            rounds_limit,
            old(heuristic),
            final(heuristic),
            outcome,
        ),
{
    let mut idle = Idle;
    play_rounds(node, max_depth, heuristic, &mut idle, rounds_limit, true, true)
}

/// What a search with the bounds `alfa` and `beta` tells of the value that
/// the plain search finds: a result within the bounds is that value; a
/// result at or below `alfa` is at least that value; a result at or above
/// `beta` is at most that value.
pub open spec fn within(result: Score, truth: Score, alfa: Score, beta: Score) -> bool {
    &&& result <= alfa ==> truth <= result
    &&& result >= beta ==> truth >= result
    &&& alfa < result < beta ==> truth == result
}

/// Where a choice ends with a value, each shorter choice does, and so does
/// the search of each position; none of them is better than the value of
/// the whole.
proof fn lemma_scan_prefix(
    follow: Seq<(Position, GameState)>,
    n: int,
    total: int,
    depth: nat,
    maximizing: bool,
    side: Player,
    round: u32,
    scores: spec_fn(Position, Player, u32) -> Score,
)
    requires
        0 <= n <= total,
        scan(follow, total, depth, maximizing, side, round, scores) is Eval,
    ensures
        scan(follow, n, depth, maximizing, side, round, scores) is Eval,
        !better(
            maximizing,
            scan(follow, n, depth, maximizing, side, round, scores)->Eval_0,
            scan(follow, total, depth, maximizing, side, round, scores)->Eval_0,
        ),
        n < total ==> search(
            follow[n].0,
            follow[n].1,
            depth,
            n,
            !maximizing,
            side,
            round,
            scores,
        ) is Eval && !better(
            maximizing,
            search(follow[n].0, follow[n].1, depth, n, !maximizing, side, round, scores)->Eval_0,
            scan(follow, total, depth, maximizing, side, round, scores)->Eval_0,
        ),
    decreases total - n,
{
    if n < total {
        lemma_scan_prefix(follow, n, total - 1, depth, maximizing, side, round, scores);
    }
}

/// A choice that has found the best value there is stays as it is.
proof fn lemma_scan_saturated(
    follow: Seq<(Position, GameState)>,
    n: int,
    total: int,
    depth: nat,
    maximizing: bool,
    side: Player,
    round: u32,
    scores: spec_fn(Position, Player, u32) -> Score,
)
    requires
        0 <= n <= total,
        scan(follow, total, depth, maximizing, side, round, scores) is Eval,
    ensures
        scan(follow, n, depth, maximizing, side, round, scores) is Eval,
        scan(follow, n, depth, maximizing, side, round, scores)->Eval_0 == worst(!maximizing)
            ==> scan(follow, total, depth, maximizing, side, round, scores) == scan(
            follow,
            n,
            depth,
            maximizing,
            side,
            round,
            scores,
        ),
    decreases total - n,
{
    lemma_scan_prefix(follow, n, total, depth, maximizing, side, round, scores);
    if n < total {
        lemma_scan_saturated(follow, n, total - 1, depth, maximizing, side, round, scores);
    }
}

/// The invariant of a choice that prunes, against the plain choice among
/// the same positions: until the bounds meet, the bound of the side that
/// chooses follows the best value, and the best value is the true one as
/// soon as it has passed the bound that was handed in; once the bounds have
/// met, the best value has passed the other bound and the true value of the
/// whole choice is no worse. With the widest bounds the index is that of the
/// plain choice throughout.
pub open spec fn sweep_agrees(
    sweep: Sweep,
    plain_so_far: Verdict,
    plain: Verdict,
    maximizing: bool,
    alfa: Score,
    beta: Score,
) -> bool {
    let truth_so_far = plain_so_far->Eval_0;
    let truth = plain->Eval_0;
    match sweep {
        Sweep::Going { best, at, alfa: low, beta: high, cut } => (alfa == Score::MIN && beta
            == Score::MAX ==> at == (if cut {
            plain->Eval_1
        } else {
            plain_so_far->Eval_1
        })) && if maximizing {
            &&& high == beta
            &&& cut ==> best >= beta && truth >= best
            &&& !cut ==> {
                &&& low == (if alfa < best {
                    best
                } else {
                    alfa
                })
                &&& low < high
                &&& best <= alfa ==> truth_so_far <= best
                &&& alfa < best ==> truth_so_far == best
            }
        } else {
            &&& low == alfa
            &&& cut ==> best <= alfa && truth <= best
            &&& !cut ==> {
                &&& high == (if beta > best {
                    best
                } else {
                    beta
                })
                &&& low < high
                &&& best >= beta ==> truth_so_far >= best
                &&& best < beta ==> truth_so_far == best
            }
        },
        Sweep::Ended(_) => false,
    }
}

#[verifier::rlimit(50)]
proof fn lemma_pruned_scan(
    follow: Seq<(Position, GameState)>,
    n: int,
    total: int,
    depth: nat,
    maximizing: bool,
    alfa: Score,
    beta: Score,
    side: Player,
    round: u32,
    scores: spec_fn(Position, Player, u32) -> Score,
)
    requires
        alfa < beta,
        0 <= n <= total,
        scan(follow, total, depth, maximizing, side, round, scores) is Eval,
    ensures
        scan(follow, n, depth, maximizing, side, round, scores) is Eval,
        sweep_agrees(
            pruned_scan(follow, n, depth, maximizing, alfa, beta, side, round, scores),
            scan(follow, n, depth, maximizing, side, round, scores),
            scan(follow, total, depth, maximizing, side, round, scores),
            maximizing,
            alfa,
            beta,
        ),
    decreases depth, n + 1,
{
    lemma_scan_prefix(follow, n, total, depth, maximizing, side, round, scores);
    if n > 0 {
        lemma_scan_saturated(follow, n, total, depth, maximizing, side, round, scores);
        lemma_pruned_scan(follow, n - 1, total, depth, maximizing, alfa, beta, side, round, scores);
        lemma_scan_prefix(follow, n - 1, total, depth, maximizing, side, round, scores);
        match pruned_scan(follow, n - 1, depth, maximizing, alfa, beta, side, round, scores) {
            Sweep::Going { best, at, alfa: low, beta: high, cut } => {
                if !cut {
                    lemma_pruned_search(
                        follow[n - 1].0,
                        follow[n - 1].1,
                        depth,
                        n - 1,
                        !maximizing,
                        low,
                        high,
                        side,
                        round,
                        scores,
                    );
                }
            },
            Sweep::Ended(_) => {},
        }
    }
}

/// A search that prunes with bounds `alfa < beta` ends with a value
/// wherever the plain search does, and its value tells of the plain one
/// what `within` says. With the widest bounds it returns what the plain
/// search returns: the same value for the same child.
pub proof fn lemma_pruned_search(
    pos: Position,
    phase: GameState,
    depth: nat,
    index: int,
    maximizing: bool,
    alfa: Score,
    beta: Score,
    side: Player,
    round: u32,
    scores: spec_fn(Position, Player, u32) -> Score,
)
    requires
        alfa < beta,
        search(pos, phase, depth, index, maximizing, side, round, scores) is Eval,
    ensures
        pruned_search(pos, phase, depth, index, maximizing, alfa, beta, side, round, scores) is Eval,
        within(
            pruned_search(
                pos,
                phase,
                depth,
                index,
                maximizing,
                alfa,
                beta,
                side,
                round,
                scores,
            )->Eval_0,
            search(pos, phase, depth, index, maximizing, side, round, scores)->Eval_0,
            alfa,
            beta,
        ),
        alfa == Score::MIN && beta == Score::MAX ==> pruned_search(
            pos,
            phase,
            depth,
            index,
            maximizing,
            alfa,
            beta,
            side,
            round,
            scores,
        ) == search(pos, phase, depth, index, maximizing, side, round, scores),
    decreases depth, 0int,
{
    if !(phase is Won) && depth > 0 {
        let follow = pos.successors(phase.to_move());
        lemma_pruned_scan(
            follow,
            follow.len() as int,
            follow.len() as int,
            (depth - 1) as nat,
            maximizing,
            alfa,
            beta,
            side,
            round,
            scores,
        );
    }
}

/// Pruning does not change what a round's search finds: wherever the plain
/// search from the root ends with a value, the search that prunes with the
/// widest bounds ends with the same value for the same child.
pub proof fn lemma_pruning_keeps_value(
    pos: Position,
    phase: GameState,
    depth: nat,
    side: Player,
    round: u32,
    scores: spec_fn(Position, Player, u32) -> Score,
)
    requires
        round_search(false, pos, phase, depth, side, round, scores) is Eval,
    ensures
        round_search(true, pos, phase, depth, side, round, scores) == round_search(
            false,
            pos,
            phase,
            depth,
            side,
            round,
            scores,
        ),
{
    lemma_pruned_search(pos, phase, depth, 0, true, Score::MIN, Score::MAX, side, round, scores);
}

/// A game in which no plain search comes upon an ending takes the same
/// course with searches that prune.
pub proof fn lemma_pruning_keeps_game(
    pos: Position,
    phase: GameState,
    depth: nat,
    limit: nat,
    round: nat,
    first: Player,
    first_scores: spec_fn(Position, Player, u32) -> Score,
    second_scores: spec_fn(Position, Player, u32) -> Score,
)
    requires
        play(
            false,
            pos,
            phase,
            depth,
            limit,
            round,
            first,
            first_scores,
            second_scores,
        ).ending is NoWinner,
    ensures
        play(true, pos, phase, depth, limit, round, first, first_scores, second_scores) == play(
            false,
            pos,
            phase,
            depth,
            limit,
            round,
            first,
            first_scores,
            second_scores,
        ),
    decreases limit - round,
{
    if round < limit {
        let side = phase.to_move();
        let scores = if side == first {
            first_scores
        } else {
            second_scores
        };
        lemma_pruning_keeps_value(pos, phase, depth, side, round as u32, scores);
        let at = round_search(false, pos, phase, depth, side, round as u32, scores)->Eval_1;
        let next = pos.successors(side)[at];
        if round + 1 < limit {
            lemma_pruning_keeps_game(
                next.0,
                next.1,
                depth,
                limit,
                round + 1,
                first,
                first_scores,
                second_scores,
            );
        }
    }
}

/// A game depends on the evaluators by their scores alone: evaluators that
/// score alike lead to the same positions, round by round, and to the same
/// ending.
pub proof fn lemma_play_deterministic(
    pruned: bool,
    pos: Position,
    phase: GameState,
    depth: nat,
    limit: nat,
    first: Player,
    first_scores: spec_fn(Position, Player, u32) -> Score,
    second_scores: spec_fn(Position, Player, u32) -> Score,
    first_again: spec_fn(Position, Player, u32) -> Score,
    second_again: spec_fn(Position, Player, u32) -> Score,
)
    requires
        forall|p: Position, s: Player, r: u32| #[trigger] first_scores(p, s, r) == first_again(p, s, r),
        forall|p: Position, s: Player, r: u32|
            #[trigger] second_scores(p, s, r) == second_again(p, s, r),
    ensures
        play(pruned, pos, phase, depth, limit, 0, first, first_scores, second_scores) == play(
            pruned,
            pos,
            phase,
            depth,
            limit,
            0,
            first,
            first_again,
            second_again,
        ),
{
    assert(first_scores =~= first_again);
    assert(second_scores =~= second_again);
}

} // verus!
