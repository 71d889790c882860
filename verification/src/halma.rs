//! The board: coordinates, sides, game phases, positions and the fixed
//! tables of the game (the eight directions and the two corner zones).

use vstd::prelude::*;

verus! {

/// What stands on one cell of the board.
#[derive(Clone, Copy, Debug, PartialEq, Eq, Structural)]
pub enum Tile {
    Empty,
    Black,
    White,
}

/// A full 16x16 grid of tiles, indexed by row and then by column.
pub type Board = [[Tile; 16]; 16];

/// The coordinates of the 19 pieces of one side.
pub type PlayerCoords = [Coords; 19];

/// One of the two sides.
#[derive(Clone, Copy, Debug, PartialEq, Eq, Structural)]
pub enum Player {
    Black,
    White,
}

/// The phase of the game at a position.
#[derive(Clone, Copy, Debug, PartialEq, Eq, Structural)]
pub enum GameState {
    /// Nothing was played yet and the given side is to move.
    Start(Player),
    /// The given side has just moved.
    Moved(Player),
    /// The given side has just moved and thereby filled its target zone.
    Won(Player),
}

/// A cell of the grid, or a displacement between two cells.
#[derive(Clone, Copy, Debug, PartialEq, Eq, Structural)]
pub struct Coords {
    pub x: i8,
    pub y: i8,
}

/// The cells held by both sides.
#[derive(Clone, Copy, Debug)]
pub struct BoardState {
    pub black_coords: PlayerCoords,
    pub white_coords: PlayerCoords,
}

/// The mathematical content of a `BoardState`: the cells of each side, in
/// the order in which the side's array holds them.
#[verifier::ext_equal]
pub struct Position {
    pub black: Seq<Coords>,
    pub white: Seq<Coords>,
}

impl View for BoardState {
    type V = Position;

    open spec fn view(&self) -> Position {
        Position { black: self.black_coords@, white: self.white_coords@ }
    }
}

impl Player {
    /// The opposing side.
    pub open spec fn opposite(self) -> Player {
        match self {
            Player::Black => Player::White,
            Player::White => Player::Black,
        }
    }

    pub fn other(&self) -> (r: Player)
        ensures
            r == self.opposite(),
    {
        match self {
            Player::Black => Player::White,
            Player::White => Player::Black,
        }
    }
}

impl GameState {
    /// The side whose turn it is: the named side at the start, the opponent of
    /// the side that has just moved afterwards.
    pub open spec fn to_move(self) -> Player {
        match self {
            GameState::Start(p) => p,
            GameState::Moved(p) => p.opposite(),
            GameState::Won(p) => p.opposite(),
        }
    }
}

impl Coords {
    /// Whether both components lie in `0..16`.
    pub open spec fn in_board(self) -> bool {
        0 <= self.x < 16 && 0 <= self.y < 16
    }

    /// The cell reached from `self` by the displacement `d`.
    pub open spec fn plus(self, d: Coords) -> Coords {
        Coords { x: (self.x + d.x) as i8, y: (self.y + d.y) as i8 }
    }

    /// The displacement that undoes `self`.
    pub open spec fn reversed(self) -> Coords {
        Coords { x: (-self.x) as i8, y: (-self.y) as i8 }
    }

    /// Whether `self` is one of the eight unit displacements.
    pub open spec fn is_unit(self) -> bool {
        -1 <= self.x <= 1 && -1 <= self.y <= 1 && !(self.x == 0 && self.y == 0)
    }

    #[inline]
    pub fn is_in_board(&self) -> (r: bool)
        ensures
            r == self.in_board(),
    {
        (self.x < 16) && (self.x > -1) && (self.y < 16) && (self.y > -1)
    }

    /// Moves by one displacement. The sums must fit the component type.
    pub fn step(&self, d: Coords) -> (r: Coords)
        requires
            -128 <= self.x + d.x <= 127,
            -128 <= self.y + d.y <= 127,
        ensures
            r == self.plus(d),
    {
        Coords { x: self.x + d.x, y: self.y + d.y }
    }
}

/// The eight directions, in the order in which moves are tried.
pub open spec fn direction_table() -> Seq<Coords> {
    seq![
        Coords { x: -1i8, y: -1i8 },
        Coords { x: -1i8, y: 0 },
        Coords { x: 0, y: -1i8 },
        Coords { x: 1, y: -1i8 },
        Coords { x: -1i8, y: 1 },
        Coords { x: 0, y: 1 },
        Coords { x: 1, y: 0 },
        Coords { x: 1, y: 1 },
    ]
}

/// The corner in which White starts, and which Black must fill to win.
pub open spec fn white_base() -> Seq<Coords> {
    seq![
        Coords { x: 14, y: 11 },
        Coords { x: 15, y: 11 },
        Coords { x: 13, y: 12 },
        Coords { x: 14, y: 12 },
        Coords { x: 15, y: 12 },
        Coords { x: 12, y: 13 },
        Coords { x: 13, y: 13 },
        Coords { x: 14, y: 13 },
        Coords { x: 15, y: 13 },
        Coords { x: 11, y: 14 },
        Coords { x: 12, y: 14 },
        Coords { x: 13, y: 14 },
        Coords { x: 14, y: 14 },
        Coords { x: 15, y: 14 },
        Coords { x: 11, y: 15 },
        Coords { x: 12, y: 15 },
        Coords { x: 13, y: 15 },
        Coords { x: 14, y: 15 },
        Coords { x: 15, y: 15 },
    ]
}

/// The corner in which Black starts, and which White must fill to win.
pub open spec fn black_base() -> Seq<Coords> {
    seq![
        Coords { x: 0, y: 0 },
        Coords { x: 1, y: 0 },
        Coords { x: 2, y: 0 },
        Coords { x: 3, y: 0 },
        Coords { x: 4, y: 0 },
        Coords { x: 0, y: 1 },
        Coords { x: 1, y: 1 },
        Coords { x: 2, y: 1 },
        Coords { x: 3, y: 1 },
        Coords { x: 4, y: 1 },
        Coords { x: 0, y: 2 },
        Coords { x: 1, y: 2 },
        Coords { x: 2, y: 2 },
        Coords { x: 3, y: 2 },
        Coords { x: 0, y: 3 },
        Coords { x: 1, y: 3 },
        Coords { x: 2, y: 3 },
        Coords { x: 0, y: 4 },
        Coords { x: 1, y: 4 },
    ]
}

/// The zone that `player` races toward: the corner of the opponent.
pub open spec fn target_zone(player: Player) -> Seq<Coords> {
    match player {
        Player::Black => white_base(),
        Player::White => black_base(),
    }
}

/// The eight directions as an array.
pub fn directions() -> (d: [Coords; 8])
    ensures
        d@ == direction_table(),
{
    let d = [
        Coords { x: -1, y: -1 },
        Coords { x: -1, y: 0 },
        Coords { x: 0, y: -1 },
        Coords { x: 1, y: -1 },
        Coords { x: -1, y: 1 },
        Coords { x: 0, y: 1 },
        Coords { x: 1, y: 0 },
        Coords { x: 1, y: 1 },
    ];
    assert(d@ =~= direction_table());
    d
}

/// White's starting corner as an array.
pub fn player_white_base() -> (z: PlayerCoords)
    ensures
        z@ == white_base(),
{
    let z = [
        Coords { x: 14, y: 11 },
        Coords { x: 15, y: 11 },
        Coords { x: 13, y: 12 },
        Coords { x: 14, y: 12 },
        Coords { x: 15, y: 12 },
        Coords { x: 12, y: 13 },
        Coords { x: 13, y: 13 },
        Coords { x: 14, y: 13 },
        Coords { x: 15, y: 13 },
        Coords { x: 11, y: 14 },
        Coords { x: 12, y: 14 },
        Coords { x: 13, y: 14 },
        Coords { x: 14, y: 14 },
        Coords { x: 15, y: 14 },
        Coords { x: 11, y: 15 },
        Coords { x: 12, y: 15 },
        Coords { x: 13, y: 15 },
        Coords { x: 14, y: 15 },
        Coords { x: 15, y: 15 },
    ];
    assert(z@ =~= white_base());
    z
}

/// Black's starting corner as an array.
pub fn player_black_base() -> (z: PlayerCoords)
    ensures
        z@ == black_base(),
{
    let z = [
        Coords { x: 0, y: 0 },
        Coords { x: 1, y: 0 },
        Coords { x: 2, y: 0 },
        Coords { x: 3, y: 0 },
        Coords { x: 4, y: 0 },
        Coords { x: 0, y: 1 },
        Coords { x: 1, y: 1 },
        Coords { x: 2, y: 1 },
        Coords { x: 3, y: 1 },
        Coords { x: 4, y: 1 },
        Coords { x: 0, y: 2 },
        Coords { x: 1, y: 2 },
        Coords { x: 2, y: 2 },
        Coords { x: 3, y: 2 },
        Coords { x: 0, y: 3 },
        Coords { x: 1, y: 3 },
        Coords { x: 2, y: 3 },
        Coords { x: 0, y: 4 },
        Coords { x: 1, y: 4 },
    ];
    assert(z@ =~= black_base());
    z
}

/// The corner that `player` must fill, as an array.
pub fn winning_coords(player: Player) -> (z: PlayerCoords)
    ensures
        z@ == target_zone(player),
{
    match player {
        Player::Black => player_white_base(),
        Player::White => player_black_base(),
    }
}

/// Whether `coords` is one of the cells of `cells`.
pub fn contains_coords(cells: &PlayerCoords, coords: Coords) -> (r: bool)
    ensures
        r == cells@.contains(coords),
{
    let mut i: usize = 0;
    while i < 19
        invariant
            i <= 19,
            forall|j: int| 0 <= j < i ==> cells@[j] != coords,
        decreases 19 - i,
    {
        if cells[i] == coords {
            return true;
        }
        i += 1;
    }
    false
}

impl Position {
    /// The cells of one side.
    pub open spec fn pieces(self, player: Player) -> Seq<Coords> {
        match player {
            Player::Black => self.black,
            Player::White => self.white,
        }
    }

    /// Whether a piece of either side stands on `c`.
    pub open spec fn occupied(self, c: Coords) -> bool {
        self.black.contains(c) || self.white.contains(c)
    }

    /// What stands on `c`.
    pub open spec fn tile_at(self, c: Coords) -> Tile {
        if self.black.contains(c) {
            Tile::Black
        } else if self.white.contains(c) {
            Tile::White
        } else {
            Tile::Empty
        }
    }

    /// Each side has 19 pieces, all on the board, and no cell holds two
    /// pieces, of one side or of both.
    pub open spec fn wf(self) -> bool {
        &&& self.black.len() == 19
        &&& self.white.len() == 19
        &&& forall|i: int| 0 <= i < 19 ==> (#[trigger] self.black[i]).in_board()
        &&& forall|i: int| 0 <= i < 19 ==> (#[trigger] self.white[i]).in_board()
        &&& (self.black + self.white).no_duplicates()
    }

    /// Whether every piece of `player` stands in the zone that the player
    /// races toward.
    pub open spec fn is_won(self, player: Player) -> bool {
        forall|i: int|
            0 <= i < self.pieces(player).len() ==> target_zone(player).contains(
                #[trigger] self.pieces(player)[i],
            )
    }
}

impl BoardState {
    /// The pieces of `player`.
    pub fn coords_of(&self, player: Player) -> (r: PlayerCoords)
        ensures
            r@ == self@.pieces(player),
    {
        match player {
            Player::Black => self.black_coords,
            Player::White => self.white_coords,
        }
    }

    /// Whether no piece stands on `coords`.
    pub fn is_tile_empty(&self, coords: Coords) -> (r: bool)
        ensures
            r == !self@.occupied(coords),
    {
        (!contains_coords(&self.black_coords, coords)) && (!contains_coords(
            &self.white_coords,
            coords,
        ))
    }

    /// The board as a grid of tiles.
    pub fn to_board(&self) -> (board: Board)
        ensures
            forall|c: Coords|
                c.in_board() ==> board@[c.y as int]@[c.x as int] == #[trigger] self@.tile_at(c),
    {
        let mut board: Board = [[Tile::Empty;16];16];
        let mut y: i8 = 0;
        while y < 16
            invariant
                0 <= y <= 16,
                forall|c: Coords|
                    c.in_board() && c.y < y ==> board@[c.y as int]@[c.x as int]
                        == #[trigger] self@.tile_at(c),
            decreases 16 - y,
        {
            let mut row: [Tile; 16] = [Tile::Empty;16];
            let mut x: i8 = 0;
            while x < 16
                invariant
                    0 <= x <= 16,
                    0 <= y < 16,
                    forall|i: int|
                        0 <= i < x ==> row@[i] == self@.tile_at(Coords { x: i as i8, y }),
                decreases 16 - x,
            {
                row[x as usize] = self.tile_at(Coords { x, y });
                x += 1;
            }
            let ghost before = board;
            board[y as usize] = row;
            assert forall|c: Coords| c.in_board() && c.y < y + 1 implies board@[c.y as int]@[c.x as int]
                == #[trigger] self@.tile_at(c) by {
                if c.y < y {
                    assert(board@[c.y as int] == before@[c.y as int]);
                } else {
                    assert(c == Coords { x: c.x as int as i8, y });
                }
            }
            y += 1;
        }
        board
    }

    /// What stands on `coords`.
    pub fn tile_at(&self, coords: Coords) -> (t: Tile)
        ensures
            t == self@.tile_at(coords),
    {
        if contains_coords(&self.black_coords, coords) {
            Tile::Black
        } else if contains_coords(&self.white_coords, coords) {
            Tile::White
        } else {
            Tile::Empty
        }
    }
}

/// The tile that `board` holds at `coords`.
#[inline]
pub fn index_board(board: &Board, coords: Coords) -> (t: Tile)
    requires
        coords.in_board(),
    ensures
        t == board@[coords.y as int]@[coords.x as int],
{
    board[coords.y as usize][coords.x as usize]
}

/// Every direction has its reverse among the eight, so a step that stays on
/// the board can be undone by a step that stays on the board.
pub proof fn lemma_directions_symmetric(k: int)
    requires
        0 <= k < 8,
    ensures
        direction_table().len() == 8,
        direction_table()[k].is_unit(),
        direction_table()[7 - k] == direction_table()[k].reversed(),
        forall|c: Coords|
            c.in_board() && (#[trigger] c.plus(direction_table()[k])).in_board() ==> c.plus(
                direction_table()[k],
            ).plus(direction_table()[7 - k]) == c,
{
}

/// The character that stands for a tile in the text of a board.
pub open spec fn tile_char(tile: Tile) -> char {
    match tile {
        Tile::Empty => '0',
        Tile::Black => '1',
        Tile::White => '2',
    }
}

/// The text of a position: 16 lines of 16 characters, one per cell, each
/// line followed by a line feed.
pub open spec fn board_text(pos: Position) -> Seq<char> {
    Seq::new(
        272,
        |i: int|
            if i % 17 == 16 {
                '\n'
            } else {
                tile_char(pos.tile_at(Coords { x: (i % 17) as i8, y: (i / 17) as i8 }))
            },
    )
}

/// Writes a position as text.
pub fn board_state_to_string(board_state: &BoardState) -> (text: String)
    ensures
        text@ == board_text(board_state@),
{
    let mut base_string = String::new();
    let ghost pos = board_state@;
    let mut y: i8 = 0;
    while y < 16
        invariant
            0 <= y <= 16,
            pos == board_state@,
            base_string@.len() == 17 * y,
            forall|i: int| 0 <= i < base_string@.len() ==> base_string@[i] == board_text(pos)[i],
        decreases 16 - y,
    {
        let mut x: i8 = 0;
        while x < 16
            invariant
                0 <= x <= 16,
                0 <= y < 16,
                pos == board_state@,
                base_string@.len() == 17 * y + x,
                forall|i: int| 0 <= i < base_string@.len() ==> base_string@[i] == board_text(pos)[i],
            decreases 16 - x,
        {
            let ghost before = base_string@;
            let tile = board_state.tile_at(Coords { x, y });
            proof {
                reveal_strlit("0");
                reveal_strlit("1");
                reveal_strlit("2");
                assert((17 * y + x) % 17 == x && (17 * y + x) / 17 == y) by (nonlinear_arith)
                    requires
                        0 <= x < 16,
                        0 <= y < 16,
                ;
            }
            match tile {
                Tile::Black => {
                    base_string.append("1");
                },
                Tile::White => {
                    base_string.append("2");
                },
                Tile::Empty => {
                    base_string.append("0");
                },
            }
            assert(base_string@ =~= before.push(tile_char(tile)));
            x += 1;
        }
        let ghost before = base_string@;
        proof {
            reveal_strlit("\n");
            assert((17 * y + 16) % 17 == 16) by (nonlinear_arith)
                requires
                    0 <= y < 16,
            ;
        }
        base_string.append("\n");
        assert(base_string@ =~= before.push('\n'));
        y += 1;
    }
    assert(base_string@ =~= board_text(pos));
    base_string
}

/// Why a text is not the text of a position.
#[derive(Clone, Copy, Debug, PartialEq, Eq, Structural)]
pub enum BoardParseError {
    /// A piece stands beyond the sixteenth column or row.
    PieceOffBoard,
    /// A side does not have exactly 19 pieces.
    WrongPieceCount,
}

/// The number of line feeds before the character with index `i`.
pub open spec fn row_of(text: Seq<char>, i: int) -> int
    decreases i,
{
    if i <= 0 {
        0
    } else if text[i - 1] == '\n' {
        row_of(text, i - 1) + 1
    } else {
        row_of(text, i - 1)
    }
}

/// The number of characters between the character with index `i` and the
/// start of its line.
pub open spec fn column_of(text: Seq<char>, i: int) -> int
    decreases i,
{
    if i <= 0 {
        0
    } else if text[i - 1] == '\n' {
        0
    } else {
        column_of(text, i - 1) + 1
    }
}

/// Column and row of each `mark` among the first `n` characters, in order.
pub open spec fn marked(text: Seq<char>, mark: char, n: int) -> Seq<(int, int)>
    decreases n,
{
    if n <= 0 {
        Seq::empty()
    } else if text[n - 1] == mark {
        marked(text, mark, n - 1).push((column_of(text, n - 1), row_of(text, n - 1)))
    } else {
        marked(text, mark, n - 1)
    }
}

/// Whether column and row are below 16.
pub open spec fn on_board(cell: (int, int)) -> bool {
    0 <= cell.0 < 16 && 0 <= cell.1 < 16
}

/// Whether each of the cells is on the board.
pub open spec fn all_on_board(cells: Seq<(int, int)>) -> bool {
    forall|i: int| 0 <= i < cells.len() ==> on_board(#[trigger] cells[i])
}

/// Columns and rows as coordinates.
pub open spec fn as_coords(cells: Seq<(int, int)>) -> Seq<Coords> {
    Seq::new(cells.len(), |i: int| Coords { x: cells[i].0 as i8, y: cells[i].1 as i8 })
}

/// The position that a text describes. Each `1` is a black piece and each
/// `2` a white piece, on the cell given by the line and the place in the
/// line; every other character but the line feed only takes up a place. A
/// piece off the board is an error, and so is a side without exactly 19
/// pieces.
pub open spec fn parsed(text: Seq<char>) -> Result<Position, BoardParseError> {
    let black = marked(text, '1', text.len() as int);
    let white = marked(text, '2', text.len() as int);
    if !all_on_board(black) || !all_on_board(white) {
        Err(BoardParseError::PieceOffBoard)
    } else if black.len() != 19 || white.len() != 19 {
        Err(BoardParseError::WrongPieceCount)
    } else {
        Ok(Position { black: as_coords(black), white: as_coords(white) })
    }
}

/// The first 19 cells of `cells` as an array.
fn to_player_coords(cells: &Vec<Coords>) -> (coords: PlayerCoords)
    requires
        cells@.len() == 19,
    ensures
        coords@ == cells@,
{
    let mut coords: PlayerCoords = [Coords { x: 0, y: 0 };19];
    let mut i: usize = 0;
    while i < 19
        invariant
            i <= 19,
            cells@.len() == 19,
            forall|j: int| 0 <= j < i ==> coords@[j] == cells@[j],
        decreases 19 - i,
    {
        coords[i] = cells[i];
        i += 1;
    }
    assert(coords@ =~= cells@);
    coords
}

/// Reads a position from text.
pub fn board_state_from_str(board_str: &String) -> (r: Result<BoardState, BoardParseError>)
    ensures
        match r {
            Ok(board_state) => parsed(board_str@) == Ok::<Position, BoardParseError>(board_state@),
            Err(e) => parsed(board_str@) == Err::<Position, BoardParseError>(e),
        },
        r is Ok ==> r->Ok_0@.wf(),
{
    proof {
        if parsed(board_str@) is Ok {
            lemma_parsed_wf(board_str@);
        }
    }
    let text = board_str.as_str();
    let n = text.unicode_len();
    let mut black_coords: Vec<Coords> = Vec::with_capacity(19);
    let mut white_coords: Vec<Coords> = Vec::with_capacity(19);
    let mut row_idx: usize = 0;
    let mut char_idx: usize = 0;
    let ghost mut i: int = 0;
    for c in chars: text.chars()
        invariant
            chars.seq() == text@,
            i == chars.index(),
            n == text@.len(),
            text@ == board_str@,
            row_idx == row_of(text@, i),
            char_idx == column_of(text@, i),
            row_idx <= i,
            char_idx <= i,
            all_on_board(marked(text@, '1', i)),
            all_on_board(marked(text@, '2', i)),
            black_coords@ == as_coords(marked(text@, '1', i)),
            white_coords@ == as_coords(marked(text@, '2', i)),
    {
        assert(c == text@[i] && i < n);
        if c == '1' || c == '2' {
            if char_idx >= 16 || row_idx >= 16 {
                proof {
                    let cell = (char_idx as int, row_idx as int);
                    assert(!on_board(cell));
                    lemma_marked_stays(text@, c, i + 1, n as int, marked(text@, c, i + 1).len() - 1);
                }
                return Err(BoardParseError::PieceOffBoard);
            }
            let coords = Coords { x: char_idx as i8, y: row_idx as i8 };
            if c == '1' {
                black_coords.push(coords);
            } else {
                white_coords.push(coords);
            }
        }
        proof {
            assert(black_coords@ =~= as_coords(marked(text@, '1', i + 1)));
            assert(white_coords@ =~= as_coords(marked(text@, '2', i + 1)));
        }
        if c == '\n' {
            row_idx += 1;
            char_idx = 0;
        } else {
            char_idx += 1;
        }
        proof {
            i = i + 1;
        }
    }
    if black_coords.len() != 19 || white_coords.len() != 19 {
        return Err(BoardParseError::WrongPieceCount);
    }
    Ok(
        BoardState {
            black_coords: to_player_coords(&black_coords),
            white_coords: to_player_coords(&white_coords),
        },
    )
}

/// The marks found among the first `m` characters are the first of those
/// found among the first `n`, for `m <= n`.
pub proof fn lemma_marked_stays(text: Seq<char>, mark: char, m: int, n: int, k: int)
    requires
        0 <= m <= n,
        0 <= k < marked(text, mark, m).len(),
    ensures
        k < marked(text, mark, n).len(),
        marked(text, mark, n)[k] == marked(text, mark, m)[k],
    decreases n - m,
{
    if m < n {
        lemma_marked_stays(text, mark, m, n - 1, k);
    }
}

/// Later characters stand in later rows, or further along the same row.
proof fn lemma_rows_grow(text: Seq<char>, i: int, j: int)
    requires
        0 <= i <= j,
    ensures
        row_of(text, j) >= row_of(text, i),
        row_of(text, j) == row_of(text, i) ==> column_of(text, j) == column_of(text, i) + j - i,
    decreases j - i,
{
    if i < j {
        lemma_rows_grow(text, i, j - 1);
    }
}

/// Each mark found stands for a character of the text.
proof fn lemma_marked_source(text: Seq<char>, mark: char, n: int, k: int)
    requires
        0 <= k < marked(text, mark, n).len(),
    ensures
        exists|i: int|
            0 <= i < n && text[i] == mark && marked(text, mark, n)[k] == (
                #[trigger] column_of(text, i),
                row_of(text, i),
            ),
    decreases n,
{
    if n > 0 {
        if text[n - 1] == mark && k == marked(text, mark, n - 1).len() {
            assert(marked(text, mark, n)[k] == (column_of(text, n - 1), row_of(text, n - 1)));
        } else {
            lemma_marked_source(text, mark, n - 1, k);
        }
    }
}

/// No cell is found twice.
proof fn lemma_marked_distinct(text: Seq<char>, mark: char, n: int)
    ensures
        marked(text, mark, n).no_duplicates(),
    decreases n,
{
    if n > 0 {
        lemma_marked_distinct(text, mark, n - 1);
        if text[n - 1] == mark {
            let before = marked(text, mark, n - 1);
            let now = marked(text, mark, n);
            assert forall|a: int, b: int| 0 <= a < b < now.len() implies now[a] != now[b] by {
                if b == before.len() {
                    lemma_marked_source(text, mark, n - 1, a);
                    let i = choose|i: int|
                        0 <= i < n - 1 && text[i] == mark && before[a] == (
                            #[trigger] column_of(text, i),
                            row_of(text, i),
                        );
                    lemma_rows_grow(text, i, n - 1);
                }
            }
        }
    }
}

/// A text that describes a position describes a well-formed one.
pub proof fn lemma_parsed_wf(text: Seq<char>)
    requires
        parsed(text) is Ok,
    ensures
        parsed(text)->Ok_0.wf(),
{
    let n = text.len() as int;
    let black = marked(text, '1', n);
    let white = marked(text, '2', n);
    let pos = parsed(text)->Ok_0;
    lemma_marked_distinct(text, '1', n);
    lemma_marked_distinct(text, '2', n);
    let all = pos.black + pos.white;
    assert forall|a: int, b: int| 0 <= a < b < all.len() implies all[a] != all[b] by {
        let first = if a < 19 {
            black[a]
        } else {
            white[a - 19]
        };
        let second = if b < 19 {
            black[b]
        } else {
            white[b - 19]
        };
        assert(on_board(first) && on_board(second));
        if a < 19 && b >= 19 {
            lemma_marked_source(text, '1', n, a);
            lemma_marked_source(text, '2', n, b - 19);
            let i = choose|i: int|
                0 <= i < n && text[i] == '1' && black[a] == (
                    #[trigger] column_of(text, i),
                    row_of(text, i),
                );
            let j = choose|j: int|
                0 <= j < n && text[j] == '2' && white[b - 19] == (
                    #[trigger] column_of(text, j),
                    row_of(text, j),
                );
            if i < j {
                lemma_rows_grow(text, i, j);
            } else {
                lemma_rows_grow(text, j, i);
            }
        }
        assert(first != second);
    }
    assert forall|i: int| 0 <= i < 19 implies (#[trigger] pos.black[i]).in_board() by {
        assert(on_board(black[i]));
    }
    assert forall|i: int| 0 <= i < 19 implies (#[trigger] pos.white[i]).in_board() by {
        assert(on_board(white[i]));
    }
}

/// In the text of a position the character with index `i` stands in row
/// `i / 17` and column `i % 17`.
proof fn lemma_text_grid(pos: Position, i: int)
    requires
        0 <= i <= 272,
    ensures
        row_of(board_text(pos), i) == i / 17,
        column_of(board_text(pos), i) == i % 17,
    decreases i,
{
    if i > 0 {
        lemma_text_grid(pos, i - 1);
        assert(board_text(pos)[i - 1] == '\n' <==> (i - 1) % 17 == 16);
    }
}

/// A mark among the first `n` characters is found.
proof fn lemma_marked_found(text: Seq<char>, mark: char, n: int, i: int)
    requires
        0 <= i < n,
        text[i] == mark,
    ensures
        marked(text, mark, n).contains((column_of(text, i), row_of(text, i))),
    decreases n,
{
    if i == n - 1 {
        let found = marked(text, mark, n);
        assert(found[found.len() - 1] == (column_of(text, i), row_of(text, i)));
    } else {
        lemma_marked_found(text, mark, n - 1, i);
        let before = marked(text, mark, n - 1);
        let k = choose|k: int|
            0 <= k < before.len() && before[k] == (column_of(text, i), row_of(text, i));
        lemma_marked_stays(text, mark, n - 1, n, k);
    }
}

/// The cells of the pieces of one side, as columns and rows.
pub open spec fn as_cells(pieces: Seq<Coords>) -> Seq<(int, int)> {
    Seq::new(pieces.len(), |i: int| (pieces[i].x as int, pieces[i].y as int))
}

/// The marks of one side in the text of a position are the cells of its
/// pieces, each once.
proof fn lemma_marks_are_pieces(pos: Position, tile: Tile)
    requires
        pos.wf(),
        tile != Tile::Empty,
    ensures
        all_on_board(marked(board_text(pos), tile_char(tile), 272)),
        marked(board_text(pos), tile_char(tile), 272).len() == 19,
        marked(board_text(pos), tile_char(tile), 272).to_set() == as_cells(
            if tile == Tile::Black {
                pos.black
            } else {
                pos.white
            },
        ).to_set(),
{
    let text = board_text(pos);
    let mark = tile_char(tile);
    let found = marked(text, mark, 272);
    let pieces = if tile == Tile::Black {
        pos.black
    } else {
        pos.white
    };
    let cells = as_cells(pieces);
    let all = pos.black + pos.white;
    assert forall|k: int| 0 <= k < found.len() implies on_board(#[trigger] found[k])
        && cells.contains(found[k]) by {
        lemma_marked_source(text, mark, 272, k);
        let i = choose|i: int|
            0 <= i < 272 && text[i] == mark && found[k] == (
                #[trigger] column_of(text, i),
                row_of(text, i),
            );
        lemma_text_grid(pos, i);
        let c = Coords { x: (i % 17) as i8, y: (i / 17) as i8 };
        assert(i % 17 != 16);
        assert(pos.tile_at(c) == tile);
        assert(pieces.contains(c));
        let j = choose|j: int| 0 <= j < pieces.len() && pieces[j] == c;
        assert(cells[j] == found[k]);
    }
    assert forall|j: int| 0 <= j < cells.len() implies found.contains(#[trigger] cells[j]) by {
        let c = pieces[j];
        assert(c.in_board());
        assert(pieces.contains(c));
        if tile == Tile::White {
            if pos.black.contains(c) {
                let b = choose|b: int| 0 <= b < pos.black.len() && pos.black[b] == c;
                assert(all[b] == c);
                assert(all[19 + j] == c);
            }
        }
        assert(pos.tile_at(c) == tile);
        let i = c.y as int * 17 + c.x as int;
        assert(i % 17 == c.x && i / 17 == c.y);
        assert(text[i] == mark);
        lemma_text_grid(pos, i);
        lemma_marked_found(text, mark, 272, i);
    }
    assert(found.to_set() =~= cells.to_set());
    lemma_marked_distinct(text, mark, 272);
    found.unique_seq_to_set();
    assert forall|a: int, b: int| 0 <= a < b < cells.len() implies cells[a] != cells[b] by {
        if tile == Tile::Black {
            assert(all[a] == pieces[a] && all[b] == pieces[b]);
        } else {
            assert(all[19 + a] == pieces[a] && all[19 + b] == pieces[b]);
        }
    }
    cells.unique_seq_to_set();
}

/// Text that is written from a position reads back as a position with the
/// same pieces on the same cells.
pub proof fn lemma_text_round_trip(pos: Position)
    requires
        pos.wf(),
    ensures
        parsed(board_text(pos)) is Ok,
        parsed(board_text(pos))->Ok_0.wf(),
        forall|c: Coords| #[trigger] parsed(board_text(pos))->Ok_0.tile_at(c) == pos.tile_at(c),
{
    let text = board_text(pos);
    lemma_marks_are_pieces(pos, Tile::Black);
    lemma_marks_are_pieces(pos, Tile::White);
    lemma_parsed_wf(text);
    let black = marked(text, '1', 272);
    let white = marked(text, '2', 272);
    let back = parsed(text)->Ok_0;
    assert forall|c: Coords| #[trigger] back.tile_at(c) == pos.tile_at(c) by {
        lemma_same_cells(black, pos.black, c);
        lemma_same_cells(white, pos.white, c);
    }
}

/// Cells that are the cells of pieces hold a coordinate where the pieces do.
proof fn lemma_same_cells(found: Seq<(int, int)>, pieces: Seq<Coords>, c: Coords)
    requires
        all_on_board(found),
        found.to_set() == as_cells(pieces).to_set(),
    ensures
        as_coords(found).contains(c) == pieces.contains(c),
{
    let cell = (c.x as int, c.y as int);
    if as_coords(found).contains(c) {
        let k = choose|k: int| 0 <= k < found.len() && as_coords(found)[k] == c;
        assert(on_board(found[k]));
        assert(found[k] == cell);
        assert(found.to_set().contains(cell));
        assert(as_cells(pieces).contains(cell));
        let j = choose|j: int| 0 <= j < pieces.len() && as_cells(pieces)[j] == cell;
        assert(pieces[j] == c);
    }
    if pieces.contains(c) {
        let j = choose|j: int| 0 <= j < pieces.len() && pieces[j] == c;
        assert(as_cells(pieces)[j] == cell);
        assert(as_cells(pieces).to_set().contains(cell));
        assert(found.contains(cell));
        let k = choose|k: int| 0 <= k < found.len() && found[k] == cell;
        assert(as_coords(found)[k] == c);
    }
}

} // verus!
