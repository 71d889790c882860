//! The move generator and the search tree that it fills.
//!
//! The rules are stated on `Position`: which cells a piece reaches in one
//! turn, which of them it may take, and the positions that follow. The
//! executable generator is proved to produce exactly those, in that order.

use crate::halma::{
    contains_coords, directions, winning_coords, BoardState, Coords, GameState, Player,
    PlayerCoords, Position,
};
use vstd::prelude::*;

verus! {

/// The number of cells of the board.
pub open spec fn cell_count() -> int {
    256
}

/// How many more cells a list of distinct cells of the board can take.
pub open spec fn room(visited: Seq<Coords>) -> nat {
    if visited.len() < cell_count() {
        (cell_count() - visited.len()) as nat
    } else {
        0
    }
}

/// Landing cells: distinct empty cells of the board.
pub open spec fn landings_ok(pos: Position, cells: Seq<Coords>) -> bool {
    &&& cells.no_duplicates()
    &&& forall|i: int|
        0 <= i < cells.len() ==> (#[trigger] cells[i]).in_board() && !pos.occupied(cells[i])
}

impl Position {
    /// A piece on `from` can jump in direction `d`: the next cell holds a
    /// piece and the cell behind it is free, both on the board.
    pub open spec fn can_hop(self, from: Coords, d: Coords) -> bool {
        let over = from.plus(d);
        let land = over.plus(d);
        over.in_board() && self.occupied(over) && land.in_board() && !self.occupied(land)
    }

    /// The landing cells that a depth-first exploration adds to `visited`
    /// when it stands on `point`, has arrived there in direction `prev`, and
    /// has the directions from `k` on still to try. A direction is taken when
    /// it differs from `prev`, a jump is possible and the landing cell is new;
    /// the exploration then continues from that cell before it tries the next
    /// direction.
    pub open spec fn chain(self, visited: Seq<Coords>, point: Coords, prev: Coords, k: int) -> Seq<
        Coords,
    >
        decreases room(visited), 8 - k,
    {
        if k < 0 || k >= 8 || visited.len() >= cell_count() {
            Seq::empty()
        } else {
            let d = crate::halma::direction_table()[k];
            let land = point.plus(d).plus(d);
            if d != prev && self.can_hop(point, d) && !visited.contains(land) {
                let deeper = seq![land] + self.chain(visited.push(land), land, d, 0);
                deeper + self.chain(visited + deeper, point, prev, k + 1)
            } else {
                self.chain(visited, point, prev, k + 1)
            }
        }
    }

    /// Every cell on which a chain of jumps may end that starts with a jump
    /// in direction `d` onto `seed`, in the order of discovery.
    pub open spec fn jump_targets(self, seed: Coords, d: Coords) -> Seq<Coords> {
        seq![seed] + self.chain(seq![seed], seed, d, 0)
    }
}

/// Distinct cells of the board are at most 256.
pub proof fn lemma_cells_bounded(cells: Seq<Coords>)
    requires
        cells.no_duplicates(),
        forall|i: int| 0 <= i < cells.len() ==> (#[trigger] cells[i]).in_board(),
    ensures
        cells.len() <= cell_count(),
{
    let number = |c: Coords| c.y as int * 16 + c.x as int;
    let numbers = cells.map_values(number);
    assert forall|i: int, j: int| 0 <= i < j < numbers.len() implies numbers[i] != numbers[j] by {
        assert(cells[i].in_board() && cells[j].in_board());
        assert(cells[i] != cells[j]);
    }
    assert(numbers.no_duplicates());
    numbers.unique_seq_to_set();
    vstd::set_lib::lemma_int_range(0, 256);
    assert forall|n: int| numbers.to_set().contains(n) implies vstd::set_lib::set_int_range(
        0,
        256,
    ).contains(n) by {
        let i = choose|i: int| 0 <= i < numbers.len() && numbers[i] == n;
        assert(cells[i].in_board());
    }
    vstd::set_lib::lemma_len_subset(numbers.to_set(), vstd::set_lib::set_int_range(0, 256));
}

/// Landing cells leave out at least the cell of one piece.
pub proof fn lemma_landings_bounded(pos: Position, cells: Seq<Coords>)
    requires
        pos.wf(),
        landings_ok(pos, cells),
    ensures
        cells.len() < cell_count(),
{
    let piece = pos.black[0];
    assert(pos.black.contains(piece));
    assert(pos.occupied(piece));
    let more = cells.push(piece);
    assert forall|i: int, j: int| 0 <= i < j < more.len() implies more[i] != more[j] by {
        if j < cells.len() {
        } else {
            assert(!pos.occupied(cells[i]));
        }
    }
    assert forall|i: int| 0 <= i < more.len() implies (#[trigger] more[i]).in_board() by {
        if i < cells.len() {
            assert(cells[i].in_board());
        }
    }
    lemma_cells_bounded(more);
}

/// What an exploration adds keeps the landing cells distinct, empty and on
/// the board.
pub proof fn lemma_chain_landings(
    pos: Position,
    visited: Seq<Coords>,
    point: Coords,
    prev: Coords,
    k: int,
)
    requires
        pos.wf(),
        landings_ok(pos, visited),
    ensures
        landings_ok(pos, visited + pos.chain(visited, point, prev, k)),
    decreases room(visited), 8 - k,
{
    if k < 0 || k >= 8 || visited.len() >= cell_count() {
        assert(visited + pos.chain(visited, point, prev, k) =~= visited);
    } else {
        let d = crate::halma::direction_table()[k];
        let land = point.plus(d).plus(d);
        if d != prev && pos.can_hop(point, d) && !visited.contains(land) {
            let first = visited.push(land);
            assert(landings_ok(pos, first)) by {
                assert forall|i: int, j: int| 0 <= i < j < first.len() implies first[i]
                    != first[j] by {
                    if j == visited.len() {
                        assert(visited.contains(visited[i]));
                    }
                }
            }
            lemma_chain_landings(pos, first, land, d, 0);
            let deeper = seq![land] + pos.chain(first, land, d, 0);
            assert(visited + deeper =~= first + pos.chain(first, land, d, 0));
            lemma_chain_landings(pos, visited + deeper, point, prev, k + 1);
            assert(visited + pos.chain(visited, point, prev, k) =~= (visited + deeper) + pos.chain(
                visited + deeper,
                point,
                prev,
                k + 1,
            ));
        } else {
            lemma_chain_landings(pos, visited, point, prev, k + 1);
        }
    }
}

/// No cell occurs twice among the landing cells of one exploration, and each
/// of them is an empty cell of the board.
pub proof fn lemma_jump_targets_distinct(pos: Position, seed: Coords, d: Coords)
    requires
        pos.wf(),
        seed.in_board(),
        !pos.occupied(seed),
    ensures
        pos.jump_targets(seed, d).no_duplicates(),
        landings_ok(pos, pos.jump_targets(seed, d)),
{
    let start = seq![seed];
    assert(landings_ok(pos, start));
    lemma_chain_landings(pos, start, seed, d, 0);
}

/// A move of one piece: its place in the side's list, and where it goes.
pub struct Move {
    pub piece: int,
    pub to: Coords,
}

/// The cell with the given number, counting row by row.
pub open spec fn cell_coords(cell: int) -> Coords {
    Coords { x: (cell % 16) as i8, y: (cell / 16) as i8 }
}

/// A piece that stands in the zone it races toward may not leave it.
pub open spec fn may_move(mover: Player, from: Coords, to: Coords) -> bool {
    crate::halma::target_zone(mover).contains(from) ==> crate::halma::target_zone(mover).contains(
        to,
    )
}

/// The moves of the piece on `from` to those of the first `n` cells of
/// `points` that it may take.
pub open spec fn kept(points: Seq<Coords>, n: int, mover: Player, piece: int, from: Coords) -> Seq<
    Move,
>
    decreases n,
{
    if n <= 0 {
        Seq::empty()
    } else {
        let before = kept(points, n - 1, mover, piece, from);
        if may_move(mover, from, points[n - 1]) {
            before.push(Move { piece, to: points[n - 1] })
        } else {
            before
        }
    }
}

impl Position {
    /// The cells that the piece on `from` reaches in direction `k`: the next
    /// cell if it is free; if it is taken and the cell behind it is free, every
    /// landing cell of the jump chains that start with that jump.
    pub open spec fn reach(self, from: Coords, k: int) -> Seq<Coords> {
        let d = crate::halma::direction_table()[k];
        let step = from.plus(d);
        let jump = step.plus(d);
        if !step.in_board() {
            Seq::empty()
        } else if !self.occupied(step) {
            seq![step]
        } else if jump.in_board() && !self.occupied(jump) {
            self.jump_targets(jump, d)
        } else {
            Seq::empty()
        }
    }

    /// The moves of one piece in direction `k`.
    pub open spec fn direction_moves(self, mover: Player, piece: int, k: int) -> Seq<Move> {
        let from = self.pieces(mover)[piece];
        let points = self.reach(from, k);
        kept(points, points.len() as int, mover, piece, from)
    }

    /// The moves of one piece in the first `k` directions.
    pub open spec fn piece_moves(self, mover: Player, piece: int, k: int) -> Seq<Move>
        decreases k,
    {
        if k <= 0 {
            Seq::empty()
        } else {
            self.piece_moves(mover, piece, k - 1) + self.direction_moves(mover, piece, k - 1)
        }
    }

    /// The moves of the mover's piece on the given cell, if there is one.
    pub open spec fn cell_moves(self, mover: Player, cell: int) -> Seq<Move> {
        match self.pieces(mover).index_of_first(cell_coords(cell)) {
            Some(piece) => self.piece_moves(mover, piece, 8),
            None => Seq::empty(),
        }
    }

    /// The moves of the mover's pieces on the cells before `cell`.
    pub open spec fn moves_before(self, mover: Player, cell: int) -> Seq<Move>
        decreases cell,
    {
        if cell <= 0 {
            Seq::empty()
        } else {
            self.moves_before(mover, cell - 1) + self.cell_moves(mover, cell - 1)
        }
    }

    /// Every legal move of `mover`: piece by piece in row-major order of the
    /// cells they stand on, direction by direction for each piece.
    pub open spec fn legal_moves(self, mover: Player) -> Seq<Move> {
        self.moves_before(mover, cell_count())
    }

    /// The position after a move of `mover`.
    pub open spec fn apply(self, mover: Player, m: Move) -> Position {
        match mover {
            Player::Black => Position { black: self.black.update(m.piece, m.to), white: self.white },
            Player::White => Position { black: self.black, white: self.white.update(m.piece, m.to) },
        }
    }

    /// The phase of a position that `mover` has just moved into.
    pub open spec fn phase_after(self, mover: Player) -> GameState {
        if self.is_won(mover) {
            GameState::Won(mover)
        } else {
            GameState::Moved(mover)
        }
    }

    /// The position and phase that a move of `mover` leads to.
    pub open spec fn outcome(self, mover: Player, m: Move) -> (Position, GameState) {
        (self.apply(mover, m), self.apply(mover, m).phase_after(mover))
    }

    /// What follows this position when `mover` moves, in generation order.
    pub open spec fn successors(self, mover: Player) -> Seq<(Position, GameState)> {
        Seq::new(self.legal_moves(mover).len(), |i: int| self.outcome(mover, self.legal_moves(mover)[i]))
    }

    /// A move of one of the mover's pieces to a free cell of the board that
    /// does not take the piece out of the zone it races toward.
    pub open spec fn sound(self, mover: Player, m: Move) -> bool {
        &&& 0 <= m.piece < 19
        &&& m.to.in_board()
        &&& !self.occupied(m.to)
        &&& may_move(mover, self.pieces(mover)[m.piece], m.to)
    }
}

/// Explores the jumps that continue from `point`, which was reached in
/// `previous_direction`, and appends every new landing cell to `jump_points`.
pub fn generate_valid_jumps_for_point(
    board_state: &BoardState,
    jump_points: &mut Vec<Coords>,
    point: Coords,
    previous_direction: Coords,
)
    requires
        board_state@.wf(),
        point.in_board(),
        landings_ok(board_state@, old(jump_points)@),
    ensures
        final(jump_points)@ == old(jump_points)@ + board_state@.chain(
            old(jump_points)@,
            point,
            previous_direction,
            0,
        ),
        landings_ok(board_state@, final(jump_points)@),
    decreases room(old(jump_points)@),
{
    let dirs = directions();
    let ghost pos = board_state@;
    let ghost start = jump_points@;
    let mut k: usize = 0;
    proof {
        lemma_landings_bounded(pos, start);
    }
    while k < 8
        invariant
            k <= 8,
            pos == board_state@,
            pos.wf(),
            point.in_board(),
            dirs@ == crate::halma::direction_table(),
            landings_ok(pos, jump_points@),
            start == old(jump_points)@,
            start.len() <= jump_points@.len(),
            start.len() < cell_count(),
            start + pos.chain(start, point, previous_direction, 0) == jump_points@ + pos.chain(
                jump_points@,
                point,
                previous_direction,
                k as int,
            ),
        decreases 8 - k,
    {
        let direction = dirs[k];
        let ghost seen = jump_points@;
        proof {
            lemma_landings_bounded(pos, seen);
            crate::halma::lemma_directions_symmetric(k as int);
        }
        if direction != previous_direction {
            let check_point = point.step(direction);
            if check_point.is_in_board() {
                if !board_state.is_tile_empty(check_point) {
                    let jump_to_point = check_point.step(direction);
                    if jump_to_point.is_in_board() {
                        if board_state.is_tile_empty(jump_to_point) {
                            if !contains(jump_points, jump_to_point) {
                                jump_points.push(jump_to_point);
                                proof {
                                    let first = seen.push(jump_to_point);
                                    assert(landings_ok(pos, first)) by {
                                        assert forall|i: int, j: int|
                                            0 <= i < j < first.len() implies first[i]
                                            != first[j] by {
                                            if j == seen.len() {
                                                assert(seen.contains(seen[i]));
                                            }
                                        }
                                    }
                                    lemma_landings_bounded(pos, first);
                                }
                                generate_valid_jumps_for_point(
                                    board_state,
                                    jump_points,
                                    jump_to_point,
                                    direction,
                                );
                                proof {
                                    let first = seen.push(jump_to_point);
                                    let deeper = seq![jump_to_point] + pos.chain(
                                        first,
                                        jump_to_point,
                                        direction,
                                        0,
                                    );
                                    assert(jump_points@ =~= seen + deeper);
                                }
                            }
                        }
                    }
                }
            }
        }
        k += 1;
    }
    proof {
        assert(jump_points@ + pos.chain(jump_points@, point, previous_direction, 8) =~= jump_points@);
    }
}

/// Whether `cells` holds `coords`.
pub fn contains(cells: &Vec<Coords>, coords: Coords) -> (r: bool)
    ensures
        r == cells@.contains(coords),
{
    let mut i: usize = 0;
    while i < cells.len()
        invariant
            i <= cells.len(),
            forall|j: int| 0 <= j < i ==> cells@[j] != coords,
        decreases cells.len() - i,
    {
        if cells[i] == coords {
            return true;
        }
        i += 1;
    }
    false
}

/// A node of the search tree: a position, its phase, and what follows it as
/// far as it has been generated.
#[derive(Debug)]
pub struct DecisionTreeNode {
    pub board_state: BoardState,
    pub game_state: GameState,
    pub children: Vec<DecisionTreeNode>,
    pub generated: bool,
}

/// The nodes stand for the positions `follow`, one by one, and nothing was
/// generated of any of them.
pub open spec fn follows(nodes: Seq<DecisionTreeNode>, follow: Seq<(Position, GameState)>) -> bool {
    &&& nodes.len() == follow.len()
    &&& forall|i: int|
        0 <= i < nodes.len() ==> (#[trigger] nodes[i]).is_fresh(follow[i].0, follow[i].1)
}

/// `after` is `before` followed by one new node for each of `moves`.
pub open spec fn grown_by(
    before: Seq<DecisionTreeNode>,
    after: Seq<DecisionTreeNode>,
    pos: Position,
    mover: Player,
    moves: Seq<Move>,
) -> bool {
    &&& after.len() == before.len() + moves.len()
    &&& forall|j: int| 0 <= j < before.len() ==> #[trigger] after[j] == before[j]
    &&& forall|j: int|
        before.len() <= j < after.len() ==> (#[trigger] after[j]).is_fresh(
            pos.outcome(mover, moves[j - before.len()]).0,
            pos.outcome(mover, moves[j - before.len()]).1,
        )
}

/// Growing twice is growing by both lists of moves.
pub proof fn lemma_grown_twice(
    a: Seq<DecisionTreeNode>,
    b: Seq<DecisionTreeNode>,
    c: Seq<DecisionTreeNode>,
    pos: Position,
    mover: Player,
    first: Seq<Move>,
    second: Seq<Move>,
)
    requires
        grown_by(a, b, pos, mover, first),
        grown_by(b, c, pos, mover, second),
    ensures
        grown_by(a, c, pos, mover, first + second),
{
    assert forall|j: int| 0 <= j < a.len() implies #[trigger] c[j] == a[j] by {
        assert(c[j] == b[j]);
    }
    assert forall|j: int| a.len() <= j < c.len() implies (#[trigger] c[j]).is_fresh(
        pos.outcome(mover, (first + second)[j - a.len()]).0,
        pos.outcome(mover, (first + second)[j - a.len()]).1,
    ) by {
        if j < b.len() {
            assert(c[j] == b[j]);
            assert(b[j].is_fresh(
                pos.outcome(mover, first[j - a.len()]).0,
                pos.outcome(mover, first[j - a.len()]).1,
            ));
        } else {
            assert((first + second)[j - a.len()] == second[j - b.len()]);
        }
    }
}

/// The place of the first of `cells` that equals `coords`.
pub fn find_piece(cells: &PlayerCoords, coords: Coords) -> (r: Option<usize>)
    ensures
        match r {
            Some(i) => cells@.index_of_first(coords) == Some(i as int) && i < 19,
            None => cells@.index_of_first(coords) is None,
        },
{
    proof {
        cells@.index_of_first_ensures(coords);
    }
    let mut i: usize = 0;
    while i < 19
        invariant
            i <= 19,
            forall|j: int| 0 <= j < i ==> cells@[j] != coords,
        decreases 19 - i,
    {
        if cells[i] == coords {
            proof {
                cells@.index_of_first_ensures(coords);
                assert(cells@[i as int] == coords);
                assert(cells@.contains(coords));
                let first = cells@.index_of_first(coords)->0;
                assert(cells@[first] == coords);
                if first < i {
                    assert(cells@[first] != coords);
                }
                if i < first {
                    assert(cells@[i as int] != coords);
                }
            }
            return Some(i);
        }
        i += 1;
    }
    None
}

impl DecisionTreeNode {
    /// A node for the given position and phase of which nothing was generated.
    pub open spec fn is_fresh(&self, pos: Position, phase: GameState) -> bool {
        &&& self.board_state@ == pos
        &&& self.game_state == phase
        &&& !self.generated
        &&& self.children@.len() == 0
    }

    /// The tree is what the rules make of its root: the root's position is
    /// well-formed; a node of which nothing was generated has no children and
    /// a won position never has any; the children of a generated node are
    /// the positions that follow it, in generation order, and are such trees
    /// themselves.
    pub open spec fn wf(&self) -> bool
        decreases self,
    {
        let follow = self.board_state@.successors(self.game_state.to_move());
        &&& self.board_state@.wf()
        &&& !self.generated ==> self.children@.len() == 0
        &&& self.generated ==> {
            &&& !(self.game_state is Won)
            &&& self.children@.len() == follow.len()
            &&& forall|i: int|
                0 <= i < self.children@.len() ==> {
                    &&& (#[trigger] self.children@[i]).board_state@ == follow[i].0
                    &&& self.children@[i].game_state == follow[i].1
                    &&& self.children@[i].wf()
                }
        }
    }

    /// The tree is what the rules make of its root when `mover` is the side
    /// to move there, whatever the phase of the root says: as `wf`, but the
    /// children of the root are the positions that follow a move of `mover`.
    pub open spec fn wf_moved_by(&self, mover: Player) -> bool {
        let follow = self.board_state@.successors(mover);
        &&& self.board_state@.wf()
        &&& !self.generated ==> self.children@.len() == 0
        &&& self.generated ==> {
            &&& !(self.game_state is Won)
            &&& self.children@.len() == follow.len()
            &&& forall|i: int|
                0 <= i < self.children@.len() ==> {
                    &&& (#[trigger] self.children@[i]).board_state@ == follow[i].0
                    &&& self.children@[i].game_state == follow[i].1
                    &&& self.children@[i].wf()
                }
        }
    }

    /// `self` is `before` with more of it generated: the position and phase
    /// are the same, and where `before` was generated, `self` has the same
    /// number of children, which extend those of `before` one by one.
    pub open spec fn extends(&self, before: &DecisionTreeNode) -> bool
        decreases self,
    {
        &&& self.board_state == before.board_state
        &&& self.game_state == before.game_state
        &&& before.generated ==> {
            &&& self.generated
            &&& self.children@.len() == before.children@.len()
            &&& forall|i: int|
                0 <= i < self.children@.len() ==> (#[trigger] self.children@[i]).extends(
                    &before.children@[i],
                )
        }
    }

    /// Every position less than `depth` plies below the root that is not
    /// won has been generated.
    pub open spec fn grown_to(&self, depth: nat) -> bool
        decreases self,
    {
        ||| depth == 0
        ||| self.game_state is Won
        ||| {
            &&& self.generated
            &&& forall|i: int|
                0 <= i < self.children@.len() ==> (#[trigger] self.children@[i]).grown_to(
                    (depth - 1) as nat,
                )
        }
    }

    /// The same tree: the same root and, child by child, the same subtrees.
    pub open spec fn same_tree(&self, other: &DecisionTreeNode) -> bool
        decreases self,
    {
        &&& self.same_root(other)
        &&& self.children@.len() == other.children@.len()
        &&& forall|i: int|
            0 <= i < self.children@.len() ==> (#[trigger] self.children@[i]).same_tree(
                &other.children@[i],
            )
    }

    /// The same position, phase and generation mark.
    pub open spec fn same_root(&self, other: &DecisionTreeNode) -> bool {
        &&& self.board_state == other.board_state
        &&& self.game_state == other.game_state
        &&& self.generated == other.generated
    }

    pub fn new(board_state: BoardState, game_state: GameState) -> (node: Self)
        ensures
            node.board_state == board_state,
            node.is_fresh(board_state@, game_state),
    {
        DecisionTreeNode { board_state, game_state, children: Vec::with_capacity(40), generated: false }
    }

    /// Replaces the children by one new node for each legal move of
    /// `player_moving`, in generation order, and marks the node as generated.
    pub fn generate_children(&mut self, player_moving: Player)
        requires
            old(self).board_state@.wf(),
        ensures
            final(self).board_state == old(self).board_state,
            final(self).game_state == old(self).game_state,
            final(self).generated,
            follows(final(self).children@, old(self).board_state@.successors(player_moving)),
    {
        self.generated = true;
        self.children.clear();
        let my_coords = self.board_state.coords_of(player_moving);
        let my_winning_coords = winning_coords(player_moving);
        let ghost pos = self.board_state@;
        let ghost root = *self;
        let mut cell: usize = 0;
        while cell < 256
            invariant
                cell <= 256,
                pos == self.board_state@,
                pos.wf(),
                self.same_root(&root),
                root.generated,
                root.board_state == old(self).board_state,
                root.game_state == old(self).game_state,
                my_coords@ == pos.pieces(player_moving),
                my_winning_coords@ == crate::halma::target_zone(player_moving),
                grown_by(
                    Seq::empty(),
                    self.children@,
                    pos,
                    player_moving,
                    pos.moves_before(player_moving, cell as int),
                ),
            decreases 256 - cell,
        {
            let from_coords = Coords { x: (cell % 16) as i8, y: (cell / 16) as i8 };
            let ghost before = self.children@;
            match find_piece(&my_coords, from_coords) {
                Some(from_coords_idx) => {
                    proof {
                        my_coords@.index_of_first_ensures(from_coords);
                    }
                    self.generate_for_piece(
                        from_coords_idx,
                        from_coords,
                        player_moving,
                        &my_winning_coords,
                    );
                },
                None => {},
            }
            proof {
                assert(from_coords == cell_coords(cell as int));
                assert(grown_by(
                    before,
                    self.children@,
                    pos,
                    player_moving,
                    pos.cell_moves(player_moving, cell as int),
                ));
                lemma_grown_twice(
                    Seq::empty(),
                    before,
                    self.children@,
                    pos,
                    player_moving,
                    pos.moves_before(player_moving, cell as int),
                    pos.cell_moves(player_moving, cell as int),
                );
            }
            cell += 1;
        }
        proof {
            let follow = pos.successors(player_moving);
            assert forall|i: int| 0 <= i < self.children@.len() implies (
            #[trigger] self.children@[i]).is_fresh(follow[i].0, follow[i].1) by {
                assert(pos.legal_moves(player_moving)[i - 0] == pos.legal_moves(player_moving)[i]);
            }
        }
    }

    /// Adds the moves of one piece in all eight directions.
    fn generate_for_piece(
        &mut self,
        piece: usize,
        from_coords: Coords,
        player_moving: Player,
        my_winning_coords: &PlayerCoords,
    )
        requires
            old(self).board_state@.wf(),
            piece < 19,
            old(self).board_state@.pieces(player_moving)[piece as int] == from_coords,
            my_winning_coords@ == crate::halma::target_zone(player_moving),
        ensures
            final(self).same_root(old(self)),
            grown_by(
                old(self).children@,
                final(self).children@,
                old(self).board_state@,
                player_moving,
                old(self).board_state@.piece_moves(player_moving, piece as int, 8),
            ),
    {
        let ghost pos = self.board_state@;
        let ghost start = self.children@;
        let mut k: usize = 0;
        while k < 8
            invariant
                k <= 8,
                piece < 19,
                pos == self.board_state@,
                pos.wf(),
                self.same_root(old(self)),
                start == old(self).children@,
                pos.pieces(player_moving)[piece as int] == from_coords,
                my_winning_coords@ == crate::halma::target_zone(player_moving),
                grown_by(
                    start,
                    self.children@,
                    pos,
                    player_moving,
                    pos.piece_moves(player_moving, piece as int, k as int),
                ),
            decreases 8 - k,
        {
            let ghost before = self.children@;
            self.generate_in_direction(piece, from_coords, k, player_moving, my_winning_coords);
            proof {
                lemma_grown_twice(
                    start,
                    before,
                    self.children@,
                    pos,
                    player_moving,
                    pos.piece_moves(player_moving, piece as int, k as int),
                    pos.direction_moves(player_moving, piece as int, k as int),
                );
            }
            k += 1;
        }
    }

    /// Adds the moves of one piece in one direction: the step onto a free
    /// cell, or every landing cell of the jump chains over a taken one.
    fn generate_in_direction(
        &mut self,
        piece: usize,
        from_coords: Coords,
        k: usize,
        player_moving: Player,
        my_winning_coords: &PlayerCoords,
    )
        requires
            old(self).board_state@.wf(),
            piece < 19,
            k < 8,
            old(self).board_state@.pieces(player_moving)[piece as int] == from_coords,
            my_winning_coords@ == crate::halma::target_zone(player_moving),
        ensures
            final(self).same_root(old(self)),
            grown_by(
                old(self).children@,
                final(self).children@,
                old(self).board_state@,
                player_moving,
                old(self).board_state@.direction_moves(player_moving, piece as int, k as int),
            ),
    {
        let ghost pos = self.board_state@;
        proof {
            crate::halma::lemma_directions_symmetric(k as int);
            lemma_piece_on_board(pos, player_moving, piece as int);
        }
        let direction = directions()[k];
        let move_to = from_coords.step(direction);
        if move_to.is_in_board() {
            if self.board_state.is_tile_empty(move_to) {
                let mut points: Vec<Coords> = Vec::new();
                points.push(move_to);
                assert(points@ =~= seq![move_to]);
                self.push_moves(piece, from_coords, &points, player_moving, my_winning_coords);
            } else {
                let jump_to = move_to.step(direction);
                if jump_to.is_in_board() {
                    if self.board_state.is_tile_empty(jump_to) {
                        let mut jump_points: Vec<Coords> = Vec::new();
                        jump_points.push(jump_to);
                        assert(jump_points@ =~= seq![jump_to]);
                        assert(landings_ok(pos, jump_points@));
                        let board_state = self.board_state;
                        generate_valid_jumps_for_point(
                            &board_state,
                            &mut jump_points,
                            jump_to,
                            direction,
                        );
                        self.push_moves(
                            piece,
                            from_coords,
                            &jump_points,
                            player_moving,
                            my_winning_coords,
                        );
                    }
                }
            }
        }
    }

    /// Adds a child for each of `points` that the piece may take.
    fn push_moves(
        &mut self,
        piece: usize,
        from_coords: Coords,
        points: &Vec<Coords>,
        player_moving: Player,
        my_winning_coords: &PlayerCoords,
    )
        requires
            piece < 19,
            my_winning_coords@ == crate::halma::target_zone(player_moving),
        ensures
            final(self).same_root(old(self)),
            grown_by(
                old(self).children@,
                final(self).children@,
                old(self).board_state@,
                player_moving,
                kept(points@, points@.len() as int, player_moving, piece as int, from_coords),
            ),
    {
        let ghost pos = self.board_state@;
        let ghost start = self.children@;
        let from_in_zone = contains_coords(my_winning_coords, from_coords);
        let mut j: usize = 0;
        while j < points.len()
            invariant
                j <= points.len(),
                piece < 19,
                pos == self.board_state@,
                self.same_root(old(self)),
                start == old(self).children@,
                from_in_zone == crate::halma::target_zone(player_moving).contains(from_coords),
                my_winning_coords@ == crate::halma::target_zone(player_moving),
                grown_by(
                    start,
                    self.children@,
                    pos,
                    player_moving,
                    kept(points@, j as int, player_moving, piece as int, from_coords),
                ),
            decreases points.len() - j,
        {
            let jump_point = points[j];
            let ghost before = self.children@;
            let ghost so_far = kept(points@, j as int, player_moving, piece as int, from_coords);
            if !from_in_zone || contains_coords(my_winning_coords, jump_point) {
                self.add_child_node(piece, jump_point, player_moving);
                proof {
                    let m = Move { piece: piece as int, to: jump_point };
                    lemma_grown_twice(start, before, self.children@, pos, player_moving, so_far, seq![m]);
                    assert(so_far + seq![m] =~= so_far.push(m));
                }
            }
            j += 1;
        }
    }

    /// Adds the child that the given move leads to.
    fn add_child_node(&mut self, move_from_idx: usize, move_to: Coords, player_moved: Player)
        requires
            move_from_idx < 19,
        ensures
            final(self).same_root(old(self)),
            grown_by(
                old(self).children@,
                final(self).children@,
                old(self).board_state@,
                player_moved,
                seq![Move { piece: move_from_idx as int, to: move_to }],
            ),
    {
        let mut new_board_state = self.board_state;
        Self::move_tile(&mut new_board_state, move_from_idx, move_to, player_moved);
        let new_game_state = if Self::is_game_won(&new_board_state, player_moved) {
            GameState::Won(player_moved)
        } else {
            GameState::Moved(player_moved)
        };
        self.children.push(Self::new(new_board_state, new_game_state))
    }

    /// Puts the piece with the given index on the cell `to`.
    #[inline]
    pub fn move_tile(board_state: &mut BoardState, from_idx: usize, to: Coords, player: Player)
        requires
            from_idx < 19,
        ensures
            final(board_state)@ == old(board_state)@.apply(
                player,
                Move { piece: from_idx as int, to },
            ),
    {
        match player {
            Player::Black => {
                board_state.black_coords[from_idx] = to;
            },
            Player::White => {
                board_state.white_coords[from_idx] = to;
            },
        };
    }

    /// Whether `player_moved` has all of its pieces in the zone it races
    /// toward.
    #[inline]
    pub fn is_game_won(board_state: &BoardState, player_moved: Player) -> (won: bool)
        ensures
            won == board_state@.is_won(player_moved),
    {
        let winning_positions = winning_coords(player_moved);
        let my_positions = board_state.coords_of(player_moved);
        let mut i: usize = 0;
        while i < 19
            invariant
                i <= 19,
                winning_positions@ == crate::halma::target_zone(player_moved),
                my_positions@ == board_state@.pieces(player_moved),
                forall|j: int|
                    0 <= j < i ==> crate::halma::target_zone(player_moved).contains(
                        #[trigger] my_positions@[j],
                    ),
            decreases 19 - i,
        {
            if !contains_coords(&winning_positions, my_positions[i]) {
                return false;
            }
            i += 1;
        }
        true
    }
}

/// The pieces of a well-formed position stand on the board.
pub proof fn lemma_piece_on_board(pos: Position, player: Player, piece: int)
    requires
        pos.wf(),
        0 <= piece < 19,
    ensures
        pos.pieces(player).len() == 19,
        pos.pieces(player)[piece].in_board(),
        pos.occupied(pos.pieces(player)[piece]),
{
    match player {
        Player::Black => {
            assert(pos.black[piece].in_board());
            assert(pos.black.contains(pos.black[piece]));
        },
        Player::White => {
            assert(pos.white[piece].in_board());
            assert(pos.white.contains(pos.white[piece]));
        },
    }
}

/// Whether each of `moves` is sound in `pos`.
pub open spec fn all_sound(pos: Position, mover: Player, moves: Seq<Move>) -> bool {
    forall|j: int| 0 <= j < moves.len() ==> pos.sound(mover, #[trigger] moves[j])
}

proof fn lemma_all_sound_add(pos: Position, mover: Player, a: Seq<Move>, b: Seq<Move>)
    requires
        all_sound(pos, mover, a),
        all_sound(pos, mover, b),
    ensures
        all_sound(pos, mover, a + b),
{
    assert forall|j: int| 0 <= j < (a + b).len() implies pos.sound(mover, #[trigger] (a + b)[j]) by {
        if j < a.len() {
            assert((a + b)[j] == a[j]);
        } else {
            assert((a + b)[j] == b[j - a.len()]);
        }
    }
}

/// The cells kept for a piece are moves of that piece to cells it may take.
proof fn lemma_kept_sound(
    pos: Position,
    points: Seq<Coords>,
    n: int,
    mover: Player,
    piece: int,
    from: Coords,
)
    requires
        0 <= n <= points.len(),
        0 <= piece < 19,
        pos.pieces(mover).len() == 19,
        from == pos.pieces(mover)[piece],
        forall|i: int|
            0 <= i < points.len() ==> (#[trigger] points[i]).in_board() && !pos.occupied(points[i]),
    ensures
        all_sound(pos, mover, kept(points, n, mover, piece, from)),
    decreases n,
{
    if n > 0 {
        lemma_kept_sound(pos, points, n - 1, mover, piece, from);
        assert(points[n - 1].in_board() && !pos.occupied(points[n - 1]));
        let before = kept(points, n - 1, mover, piece, from);
        if may_move(mover, from, points[n - 1]) {
            let m = Move { piece, to: points[n - 1] };
            assert(pos.sound(mover, m));
            assert(all_sound(pos, mover, seq![m]));
            lemma_all_sound_add(pos, mover, before, seq![m]);
            assert(before.push(m) =~= before + seq![m]);
        }
    }
}

/// Whatever a piece reaches in one direction is a free cell of the board.
proof fn lemma_reach_free(pos: Position, from: Coords, k: int)
    requires
        pos.wf(),
        from.in_board(),
        0 <= k < 8,
    ensures
        forall|i: int|
            0 <= i < pos.reach(from, k).len() ==> (#[trigger] pos.reach(from, k)[i]).in_board()
                && !pos.occupied(pos.reach(from, k)[i]),
{
    crate::halma::lemma_directions_symmetric(k);
    let d = crate::halma::direction_table()[k];
    let step = from.plus(d);
    let jump = step.plus(d);
    if step.in_board() && pos.occupied(step) && jump.in_board() && !pos.occupied(jump) {
        lemma_jump_targets_distinct(pos, jump, d);
    }
}

proof fn lemma_piece_moves_sound(pos: Position, mover: Player, piece: int, k: int)
    requires
        pos.wf(),
        0 <= piece < 19,
        0 <= k <= 8,
    ensures
        all_sound(pos, mover, pos.piece_moves(mover, piece, k)),
    decreases k,
{
    if k > 0 {
        lemma_piece_moves_sound(pos, mover, piece, k - 1);
        lemma_piece_on_board(pos, mover, piece);
        let from = pos.pieces(mover)[piece];
        lemma_reach_free(pos, from, k - 1);
        let points = pos.reach(from, k - 1);
        lemma_kept_sound(pos, points, points.len() as int, mover, piece, from);
        lemma_all_sound_add(
            pos,
            mover,
            pos.piece_moves(mover, piece, k - 1),
            pos.direction_moves(mover, piece, k - 1),
        );
    }
}

proof fn lemma_moves_before_sound(pos: Position, mover: Player, cell: int)
    requires
        pos.wf(),
        0 <= cell <= cell_count(),
    ensures
        all_sound(pos, mover, pos.moves_before(mover, cell)),
    decreases cell,
{
    if cell > 0 {
        lemma_moves_before_sound(pos, mover, cell - 1);
        let pieces = pos.pieces(mover);
        pieces.index_of_first_ensures(cell_coords(cell - 1));
        lemma_piece_on_board(pos, mover, 0);
        match pieces.index_of_first(cell_coords(cell - 1)) {
            Some(piece) => {
                lemma_piece_moves_sound(pos, mover, piece, 8);
            },
            None => {},
        }
        lemma_all_sound_add(
            pos,
            mover,
            pos.moves_before(mover, cell - 1),
            pos.cell_moves(mover, cell - 1),
        );
    }
}

/// Every legal move takes one of the mover's pieces to a free cell of the
/// board, and never takes a piece out of the zone it races toward.
pub proof fn lemma_legal_moves_sound(pos: Position, mover: Player)
    requires
        pos.wf(),
    ensures
        all_sound(pos, mover, pos.legal_moves(mover)),
{
    lemma_moves_before_sound(pos, mover, cell_count());
}

/// A sound move leads to a well-formed position in which only the moved
/// piece has changed its cell.
pub proof fn lemma_apply_sound(pos: Position, mover: Player, m: Move)
    requires
        pos.wf(),
        pos.sound(mover, m),
    ensures
        pos.apply(mover, m).wf(),
        pos.apply(mover, m).pieces(mover.opposite()) == pos.pieces(mover.opposite()),
        pos.apply(mover, m).pieces(mover) == pos.pieces(mover).update(m.piece, m.to),
{
    let next = pos.apply(mover, m);
    let all = pos.black + pos.white;
    let all_next = next.black + next.white;
    let at = match mover {
        Player::Black => m.piece,
        Player::White => 19 + m.piece,
    };
    assert(all_next =~= all.update(at, m.to));
    assert forall|i: int, j: int| 0 <= i < j < all_next.len() implies all_next[i] != all_next[j] by {
        if i != at && j != at {
            assert(all[i] != all[j]);
        } else {
            let other = if i == at { j } else { i };
            assert(all_next[other] == all[other]);
            if other < 19 {
                assert(pos.black.contains(pos.black[other]));
            } else {
                assert(pos.white.contains(pos.white[other - 19]));
            }
            assert(pos.occupied(all[other]));
        }
    }
    assert forall|i: int| 0 <= i < 19 implies (#[trigger] next.black[i]).in_board() by {
        if mover == Player::Black && i == m.piece {
        } else {
            assert(pos.black[i].in_board());
        }
    }
    assert forall|i: int| 0 <= i < 19 implies (#[trigger] next.white[i]).in_board() by {
        if mover == Player::White && i == m.piece {
        } else {
            assert(pos.white[i].in_board());
        }
    }
}

/// In every position that follows, each piece of the mover that stood in the
/// zone it races toward still stands in it, and the position is well-formed.
pub proof fn lemma_zone_never_left(pos: Position, mover: Player, i: int)
    requires
        pos.wf(),
        0 <= i < pos.successors(mover).len(),
    ensures
        pos.successors(mover)[i].0.wf(),
        pos.successors(mover)[i].0.pieces(mover.opposite()) == pos.pieces(mover.opposite()),
        forall|p: int|
            0 <= p < 19 && crate::halma::target_zone(mover).contains(pos.pieces(mover)[p])
                ==> crate::halma::target_zone(mover).contains(
                #[trigger] pos.successors(mover)[i].0.pieces(mover)[p],
            ),
{
    lemma_legal_moves_sound(pos, mover);
    let m = pos.legal_moves(mover)[i];
    assert(pos.sound(mover, m));
    lemma_apply_sound(pos, mover, m);
    lemma_piece_on_board(pos, mover, 0);
}

impl Clone for DecisionTreeNode {
    fn clone(&self) -> (copy: Self)
        ensures
            copy.same_tree(self),
        decreases self,
    {
        let mut children: Vec<DecisionTreeNode> = Vec::with_capacity(40);
        let mut i: usize = 0;
        while i < self.children.len()
            invariant
                i <= self.children@.len(),
                children@.len() == i,
                forall|j: int| 0 <= j < i ==> (#[trigger] children@[j]).same_tree(&self.children@[j]),
            decreases self.children@.len() - i,
        {
            let child = self.children[i].clone();
            children.push(child);
            i += 1;
        }
        DecisionTreeNode {
            board_state: self.board_state,
            game_state: self.game_state,
            children,
            generated: self.generated,
        }
    }
}

/// A copy of a well-formed tree is well-formed.
pub proof fn lemma_same_tree_wf(copy: &DecisionTreeNode, source: &DecisionTreeNode)
    requires
        copy.same_tree(source),
        source.wf(),
    ensures
        copy.wf(),
    decreases copy,
{
    if copy.generated {
        assert forall|i: int| 0 <= i < copy.children@.len() implies {
            &&& (#[trigger] copy.children@[i]).board_state@ == source.children@[i].board_state@
            &&& copy.children@[i].game_state == source.children@[i].game_state
            &&& copy.children@[i].wf()
        } by {
            assert(copy.children@[i].same_tree(&source.children@[i]));
            assert(source.children@[i].wf());
            lemma_same_tree_wf(&copy.children@[i], &source.children@[i]);
        }
    }
}

/// Once its children are generated for `mover`, a node that was not won
/// is a well-formed tree with `mover` to move at its root.
pub proof fn lemma_generated_wf_by(node: &DecisionTreeNode, mover: Player)
    requires
        node.board_state@.wf(),
        node.generated,
        !(node.game_state is Won),
        follows(node.children@, node.board_state@.successors(mover)),
    ensures
        node.wf_moved_by(mover),
        mover == node.game_state.to_move() ==> node.wf(),
{
    let pos = node.board_state@;
    let follow = pos.successors(mover);
    assert forall|i: int| 0 <= i < node.children@.len() implies {
        &&& (#[trigger] node.children@[i]).board_state@ == follow[i].0
        &&& node.children@[i].game_state == follow[i].1
        &&& node.children@[i].wf()
    } by {
        lemma_zone_never_left(pos, mover, i);
        assert(node.children@[i].is_fresh(follow[i].0, follow[i].1));
    }
}

/// Once its children are generated for the side to move, a node that was
/// not won is a well-formed tree.
pub proof fn lemma_generated_wf(node: &DecisionTreeNode)
    requires
        node.board_state@.wf(),
        node.generated,
        !(node.game_state is Won),
        follows(node.children@, node.board_state@.successors(node.game_state.to_move())),
    ensures
        node.wf(),
{
    lemma_generated_wf_by(node, node.game_state.to_move());
}

/// A well-formed tree stays so when one of its children is replaced by a
/// well-formed tree with the same root position and phase.
pub proof fn lemma_child_replaced_by(
    before: &DecisionTreeNode,
    after: &DecisionTreeNode,
    mover: Player,
    i: int,
)
    requires
        before.wf_moved_by(mover),
        before.generated,
        after.same_root(before),
        0 <= i < before.children@.len(),
        after.children@ == before.children@.update(i, after.children@[i]),
        after.children@[i].wf(),
        after.children@[i].board_state == before.children@[i].board_state,
        after.children@[i].game_state == before.children@[i].game_state,
    ensures
        after.wf_moved_by(mover),
        mover == after.game_state.to_move() ==> after.wf(),
{
    let follow = after.board_state@.successors(mover);
    assert forall|j: int| 0 <= j < after.children@.len() implies {
        &&& (#[trigger] after.children@[j]).board_state@ == follow[j].0
        &&& after.children@[j].game_state == follow[j].1
        &&& after.children@[j].wf()
    } by {
        assert(before.children@[j].wf());
        if j != i {
            assert(after.children@[j] == before.children@[j]);
        }
    }
}

/// A well-formed tree stays so when one of its children is replaced by a
/// well-formed tree with the same root position and phase.
pub proof fn lemma_child_replaced(before: &DecisionTreeNode, after: &DecisionTreeNode, i: int)
    requires
        before.wf(),
        before.generated,
        after.same_root(before),
        0 <= i < before.children@.len(),
        after.children@ == before.children@.update(i, after.children@[i]),
        after.children@[i].wf(),
        after.children@[i].board_state == before.children@[i].board_state,
        after.children@[i].game_state == before.children@[i].game_state,
    ensures
        after.wf(),
{
    lemma_child_replaced_by(before, after, before.game_state.to_move(), i);
}

/// The children of a generated well-formed tree stand for the positions
/// that follow its root.
pub proof fn lemma_children_follow(node: &DecisionTreeNode, i: int)
    requires
        node.wf(),
        node.generated,
        0 <= i < node.children@.len(),
    ensures
        node.children@.len() == node.board_state@.successors(node.game_state.to_move()).len(),
        node.children@[i].wf(),
        node.children@[i].board_state@ == node.board_state@.successors(
            node.game_state.to_move(),
        )[i].0,
        node.children@[i].game_state == node.board_state@.successors(node.game_state.to_move())[i].1,
{
}

/// What follows a position is a position that the mover has moved into.
pub proof fn lemma_follow_phase(pos: Position, mover: Player, i: int)
    requires
        0 <= i < pos.successors(mover).len(),
    ensures
        pos.successors(mover)[i].1 == GameState::Moved(mover) || pos.successors(mover)[i].1
            == GameState::Won(mover),
{
}

/// A tree extends itself.
pub proof fn lemma_extends_self(node: &DecisionTreeNode)
    ensures
        node.extends(node),
    decreases node,
{
    assert forall|i: int| 0 <= i < node.children@.len() implies (#[trigger] node.children@[i]).extends(
        &node.children@[i],
    ) by {
        lemma_extends_self(&node.children@[i]);
    }
}

/// A tree whose children extend, one by one, the children of a generated
/// tree with the same root extends that tree.
pub proof fn lemma_extends_by_children(after: &DecisionTreeNode, before: &DecisionTreeNode)
    requires
        after.same_root(before),
        after.children@.len() == before.children@.len(),
        forall|i: int|
            0 <= i < after.children@.len() ==> (#[trigger] after.children@[i]).extends(
                &before.children@[i],
            ),
    ensures
        after.extends(before),
{
}

} // verus!
