//! The evaluator that the search consults at the leaves of its tree.

use crate::halma::{contains_coords, directions, BoardState, Coords, Player, PlayerCoords, Position};
use vstd::prelude::*;

verus! {

/// The value of a position for one side. Greater is better for that side.
/// The search compares scores and nothing else, so an evaluator that
/// computes in fractions hands in whole numbers that keep their order. The
/// least and the greatest number are kept for the search itself: it takes a
/// score that reaches one of them for its neighbour.
pub type Score = i32;

/// An evaluator of positions.
///
/// An evaluator may answer as it likes, also differently each time it is
/// asked. One that always gives the same answer to the same question says so
/// by `deterministic`, and says by `score` what the answer is; what is proved
/// of a search with such an evaluator is stated over `score`. Implementations
/// that leave both as they are promise nothing.
pub trait Heuristic {
    /// Whether `evaluate` returns `score`, now and after any number of calls.
    open spec fn deterministic(&self) -> bool {
        false
    }

    /// The answer of a deterministic evaluator.
    open spec fn score(&self, position: Position, player: Player, round: u32) -> Score {
        0
    }

    /// The value of `board_state` for `evaluating_player` in the given round.
    fn evaluate(&mut self, board_state: &BoardState, evaluating_player: Player, round_number: u32) -> (s:
        Score)
        ensures
            old(self).deterministic() ==> {
                &&& s == old(self).score(board_state@, evaluating_player, round_number)
                &&& final(self).deterministic()
                &&& forall|position: Position, player: Player, round: u32|
                    #[trigger] final(self).score(position, player, round) == old(self).score(
                        position,
                        player,
                        round,
                    )
            },
    ;

    /// A name for diagnostics.
    fn name(&self) -> String;
}

/// `after` is a deterministic evaluator that scores as `before` does.
pub open spec fn steady<H: Heuristic + ?Sized>(before: &H, after: &H) -> bool {
    &&& after.deterministic()
    &&& forall|position: Position, player: Player, round: u32|
        #[trigger] after.score(position, player, round) == before.score(position, player, round)
}

/// The scores of an evaluator as a function.
pub open spec fn oracle<H: Heuristic + ?Sized>(h: &H) -> spec_fn(Position, Player, u32) -> Score {
    |position: Position, player: Player, round: u32| h.score(position, player, round)
}

/// Evaluators that score alike are the same function.
pub proof fn lemma_steady_oracle<H: Heuristic + ?Sized>(before: &H, after: &H)
    requires
        steady(before, after),
    ensures
        oracle(after) == oracle(before),
{
    assert(oracle(after) =~= oracle(before));
}

/// Whether the neighbour of `piece` in direction `k` is a cell of the board
/// on which one of `pieces` stands and which belongs to `base`.
pub open spec fn blocks(piece: Coords, base: Seq<Coords>, pieces: Seq<Coords>, k: int) -> bool {
    let cell = piece.plus(crate::halma::direction_table()[k]);
    cell.in_board() && pieces.contains(cell) && base.contains(cell)
}

/// In how many of the first `n` directions the neighbour of `piece` is a
/// piece of `pieces` that stands in `base`.
pub open spec fn blocked_neighbours(
    piece: Coords,
    base: Seq<Coords>,
    pieces: Seq<Coords>,
    n: int,
) -> int
    decreases n,
{
    if n <= 0 {
        0
    } else if blocks(piece, base, pieces, n - 1) {
        blocked_neighbours(piece, base, pieces, n - 1) + 1
    } else {
        blocked_neighbours(piece, base, pieces, n - 1)
    }
}

/// Counts the pieces of the other player next to `piece_coords` that still
/// stand in their own base: a piece that keeps them company there is in
/// their way out. An evaluator takes one point off for each.
pub fn dont_block_other_player_in_base(
    piece_coords: &Coords,
    other_player_base: &PlayerCoords,
    other_player_pieces: &PlayerCoords,
) -> (count: u8)
    requires
        piece_coords.in_board(),
    ensures
        count == blocked_neighbours(*piece_coords, other_player_base@, other_player_pieces@, 8),
        count <= 8,
{
    let dirs = directions();
    let mut count: u8 = 0;
    let mut k: usize = 0;
    while k < 8
        invariant
            k <= 8,
            piece_coords.in_board(),
            dirs@ == crate::halma::direction_table(),
            count == blocked_neighbours(
                *piece_coords,
                other_player_base@,
                other_player_pieces@,
                k as int,
            ),
            count <= k,
        decreases 8 - k,
    {
        proof {
            crate::halma::lemma_directions_symmetric(k as int);
        }
        let looking_at_coords = piece_coords.step(dirs[k]);
        if looking_at_coords.is_in_board() {
            if contains_coords(other_player_pieces, looking_at_coords) {
                if contains_coords(other_player_base, looking_at_coords) {
                    count += 1;
                }
            }
        }
        k += 1;
    }
    count
}

/// Whether the piece stands in the first or the last row, where an
/// evaluator takes a tenth of a point off.
pub fn discourage_edges(piece_coords: &Coords) -> (on_edge: bool)
    ensures
        on_edge == (piece_coords.y == 0 || piece_coords.y == 15),
{
    piece_coords.y == 0 || piece_coords.y == 15
}

} // verus!
