//! The sliding-tile puzzle: tiles, moves and the puzzle state.
use crate::grid::{lemma_index_of, lemma_position_of, position_of, swapped, Grid, Position, Size};
use crate::notation::{
    lemma_numeral_is_a_word, lemma_numeral_spells, lemma_words_grow, numbers, numeral,
    parse_numbers, parts_words, words, write_number,
};
use crate::random::below;
use crate::solver::{
    destination, feasible, is_first_solution, is_shortest_solution, lemma_destination_valid,
    lemma_walk_joined, offered, solvable, solve, Problem, SolverError,
};
use vstd::prelude::*;

verus! {

/// What a cell holds: nothing, or a numbered tile.
#[derive(Hash, Copy, Clone, Debug, PartialEq, Eq, Structural)]
pub enum Tile {
    Hole,
    Value(u8),
}

impl Tile {
    /// The number that stands for the tile in a flat layout: 0 for the hole.
    pub open spec fn spec_code(self) -> u8 {
        match self {
            Tile::Hole => 0,
            Tile::Value(v) => v,
        }
    }

    /// The number that stands for the tile in a flat layout: 0 for the hole.
    #[verifier::when_used_as_spec(spec_code)]
    pub fn code(self) -> (c: u8)
        ensures
            c == self.spec_code(),
    {
        match self {
            Tile::Hole => 0,
            Tile::Value(v) => v,
        }
    }

    /// Whether the tile can lie on a board of `cells` cells: the hole, or
    /// a number from 1 to `cells - 1`.
    pub open spec fn fits(self, cells: int) -> bool {
        match self {
            Tile::Hole => true,
            Tile::Value(v) => 1 <= v < cells,
        }
    }

    /// The tile that the number `code` stands for.
    pub open spec fn of(code: u8) -> Tile {
        if code == 0 {
            Tile::Hole
        } else {
            Tile::Value(code)
        }
    }

    /// How the tile is shown: a middle dot for the hole, else its number.
    pub open spec fn glyphs(self) -> Seq<char> {
        match self {
            Tile::Hole => seq!['\u{b7}'],
            Tile::Value(v) => numeral(v as int),
        }
    }

    /// Writes the tile at the end of a text.
    pub fn write(self, text: &mut String)
        ensures
            final(text)@ == old(text)@ + self.glyphs(),
    {
        match self {
            Tile::Hole => {
                proof {
                    reveal_strlit("\u{b7}");
                }
                text.append("\u{b7}");
                assert(text@ =~= old(text)@ + self.glyphs());
            },
            Tile::Value(v) => write_number(text, v),
        }
    }

    /// The tile as a text: a middle dot for the hole, else its number.
    pub fn to_string(&self) -> (text: String)
        ensures
            text@ == self.glyphs(),
    {
        let mut text = String::new();
        self.write(&mut text);
        assert(text@ =~= self.glyphs());
        text
    }
}

impl From<u8> for Tile {
    /// The tile that a number stands for: the hole for 0.
    fn from(code: u8) -> (tile: Tile) {
        if code == 0 {
            Tile::Hole
        } else {
            Tile::Value(code)
        }
    }
}

impl vstd::std_specs::convert::FromSpecImpl<u8> for Tile {
    open spec fn obeys_from_spec() -> bool {
        true
    }

    open spec fn from_spec(code: u8) -> Tile {
        Tile::of(code)
    }
}

/// The direction in which a tile slides into the hole.
#[derive(Hash, Copy, Clone, Debug, PartialEq, Eq, Structural)]
pub enum Move {
    Up,
    Right,
    Down,
    Left,
}

impl Move {
    /// The four moves in their fixed order.
    pub open spec fn spec_all() -> Seq<Move> {
        seq![Move::Up, Move::Right, Move::Down, Move::Left]
    }

    /// The opposite move.
    pub open spec fn spec_reverse(self) -> Move {
        match self {
            Move::Up => Move::Down,
            Move::Right => Move::Left,
            Move::Down => Move::Up,
            Move::Left => Move::Right,
        }
    }

    /// The four moves, always in the order up, right, down, left.
    pub fn all() -> (moves: Vec<Move>)
        ensures
            moves@ == Move::spec_all(),
    {
        let mut moves: Vec<Move> = Vec::new();
        moves.push(Move::Up);
        moves.push(Move::Right);
        moves.push(Move::Down);
        moves.push(Move::Left);
        assert(moves@ =~= Move::spec_all());
        moves
    }

    /// The opposite move.
    #[verifier::when_used_as_spec(spec_reverse)]
    pub fn reverse(self) -> (m: Move)
        ensures
            m == self.spec_reverse(),
    {
        match self {
            Move::Up => Move::Down,
            Move::Right => Move::Left,
            Move::Down => Move::Up,
            Move::Left => Move::Right,
        }
    }

    /// How the move is shown: an arrow.
    pub open spec fn glyphs(self) -> Seq<char> {
        match self {
            Move::Up => seq!['\u{2b06}', '\u{fe0f}'],
            Move::Right => seq!['\u{27a1}', '\u{fe0f}'],
            Move::Down => seq!['\u{2b07}', '\u{fe0f}'],
            Move::Left => seq!['\u{2b05}', '\u{fe0f}'],
        }
    }

    /// The move as a text: an arrow.
    pub fn to_string(&self) -> (text: String)
        ensures
            text@ == self.glyphs(),
    {
        proof {
            reveal_strlit("\u{2b06}\u{fe0f}");
            reveal_strlit("\u{27a1}\u{fe0f}");
            reveal_strlit("\u{2b07}\u{fe0f}");
            reveal_strlit("\u{2b05}\u{fe0f}");
        }
        let arrow = match self {
            Move::Up => "\u{2b06}\u{fe0f}",
            Move::Right => "\u{27a1}\u{fe0f}",
            Move::Down => "\u{2b07}\u{fe0f}",
            Move::Left => "\u{2b05}\u{fe0f}",
        };
        assert(arrow@ =~= self.glyphs());
        let mut text = String::new();
        text.append(arrow);
        assert(text@ =~= self.glyphs());
        text
    }

    /// Whether the move can be made with the hole at `hole` on a board of
    /// side `size`.
    pub open spec fn legal_at(self, size: int, hole: Position) -> bool {
        match self {
            Move::Up => hole.row < size - 1,
            Move::Right => hole.column > 0,
            Move::Down => hole.row > 0,
            Move::Left => hole.column < size - 1,
        }
    }

    /// The cell whose tile slides into the hole at `hole`.
    pub open spec fn source(self, hole: Position) -> Position {
        match self {
            Move::Up => Position { row: (hole.row + 1) as u8, column: hole.column },
            Move::Right => Position { row: hole.row, column: (hole.column - 1) as u8 },
            Move::Down => Position { row: (hole.row - 1) as u8, column: hole.column },
            Move::Left => Position { row: hole.row, column: (hole.column + 1) as u8 },
        }
    }
}

/// Reversing a move twice gives the move back.
pub proof fn lemma_reverse_involutive(m: Move)
    ensures
        m.reverse().reverse() == m,
        m.reverse() != m,
{
}

/// The mathematical state of a puzzle: the side length and the tiles in
/// row-major order.
pub struct Layout {
    pub size: int,
    pub tiles: Seq<Tile>,
}

impl Layout {
    /// The number of cells.
    pub open spec fn cells(self) -> int {
        self.size * self.size
    }

    /// A state of the puzzle: a board of side 2 to 16 with one hole and
    /// each other cell holding a different number from 1 to `cells - 1`.
    pub open spec fn valid(self) -> bool {
        &&& 2 <= self.size <= 16
        &&& self.tiles.len() == self.cells()
        &&& self.tiles.contains(Tile::Hole)
        &&& forall|i: int| 0 <= i < self.tiles.len() ==> (#[trigger] self.tiles[i]).fits(self.cells())
        &&& self.tiles.no_duplicates()
    }

    /// The solved state of side `size`: 1, 2, ... in row-major order, then
    /// the hole.
    pub open spec fn goal(size: int) -> Layout {
        Layout {
            size,
            tiles: Seq::new(
                (size * size) as nat,
                |i: int|
                    if i == size * size - 1 {
                        Tile::Hole
                    } else {
                        Tile::Value((i + 1) as u8)
                    },
            ),
        }
    }

    /// Every cell but the last holds its index plus one, and the last is
    /// the hole.
    pub open spec fn solved(self) -> bool {
        &&& self.tiles.len() > 0
        &&& self.tiles.last() == Tile::Hole
        &&& forall|i: int|
            0 <= i < self.tiles.len() - 1 ==> #[trigger] self.tiles[i] == Tile::Value((i + 1) as u8)
    }

    /// The index of the hole.
    pub open spec fn hole(self) -> int {
        self.tiles.index_of(Tile::Hole)
    }

    /// The position of the hole.
    pub open spec fn hole_position(self) -> Position {
        position_of(self.size, self.hole())
    }

    /// Whether the move can be made in this state.
    pub open spec fn legal(self, m: Move) -> bool {
        m.legal_at(self.size, self.hole_position())
    }

    /// The state after the move: the hole and the tile beside it exchanged
    /// if the move is legal, else the state unchanged.
    pub open spec fn slide(self, m: Move) -> Layout {
        if self.legal(m) {
            Layout {
                size: self.size,
                tiles: swapped(
                    self.tiles,
                    self.hole(),
                    m.source(self.hole_position()).index(self.size),
                ),
            }
        } else {
            self
        }
    }

    /// Whether the move is offered after `last`: it is legal and does not
    /// undo `last`.
    pub open spec fn offers(self, last: Option<Move>, m: Move) -> bool {
        self.legal(m) && last != Some(m.reverse())
    }

    /// How the cell at index `i` is shown: a space if it is not the first
    /// of its row, the tile, and a line feed if it ends a row that is not
    /// the last.
    pub open spec fn cell(self, i: int) -> Seq<char> {
        let lead = if i % self.size > 0 {
            seq![' ']
        } else {
            Seq::empty()
        };
        let trail = if self.ends_row(i) {
            seq!['\n']
        } else {
            Seq::empty()
        };
        lead + self.tiles[i].glyphs() + trail
    }

    /// Whether the cell at index `i` ends a row that is not the last.
    pub open spec fn ends_row(self, i: int) -> bool {
        i % self.size == self.size - 1 && i / self.size < self.size - 1
    }

    /// How each tile is shown, in row-major order.
    pub open spec fn shown(self) -> Seq<Seq<char>> {
        self.tiles.map_values(|tile: Tile| tile.glyphs())
    }

    /// How the first `n` cells are shown.
    pub open spec fn render_upto(self, n: int) -> Seq<char>
        decreases n,
    {
        if n <= 0 {
            Seq::empty()
        } else {
            self.render_upto(n - 1) + self.cell(n - 1)
        }
    }

    /// How the state is shown: one line for each row, the tiles of a row
    /// with a space between them.
    pub open spec fn render(self) -> Seq<char> {
        self.render_upto(self.tiles.len() as int)
    }

    /// The number under which the first `n` tiles are filed.
    pub open spec fn digest_upto(self, n: int) -> u64
        decreases n,
    {
        if n <= 0 {
            self.size as u64
        } else {
            mix(self.digest_upto(n - 1), self.tiles[n - 1].code())
        }
    }

    /// The number under which the state is filed.
    pub open spec fn digest(self) -> u64 {
        self.digest_upto(self.tiles.len() as int)
    }

    /// The move `m` alone if it is offered after `last`, else nothing.
    pub open spec fn pick(self, last: Option<Move>, m: Move) -> Seq<Move> {
        if self.offers(last, m) {
            seq![m]
        } else {
            Seq::empty()
        }
    }

    /// The moves offered after `last`, in the order of `Move::all`.
    pub open spec fn moves(self, last: Option<Move>) -> Seq<Move> {
        self.pick(last, Move::Up) + self.pick(last, Move::Right) + self.pick(last, Move::Down)
            + self.pick(last, Move::Left)
    }
}

/// A digest with one more tile worked in.
pub open spec fn mix(digest: u64, code: u8) -> u64 {
    digest.wrapping_mul(31).wrapping_add(code as u64)
}

/// The last of the moves, if there is one.
pub open spec fn last_of(moves: Seq<Move>) -> Option<Move> {
    if moves.len() == 0 {
        None
    } else {
        Some(moves.last())
    }
}

/// In a valid state the hole has one index, and that index is in range.
pub proof fn lemma_hole(l: Layout)
    requires
        l.valid(),
    ensures
        0 <= l.hole() < l.cells(),
        l.tiles[l.hole()] == Tile::Hole,
        forall|i: int| 0 <= i < l.cells() && l.tiles[i] == Tile::Hole ==> i == l.hole(),
        l.hole_position().within(l.size),
        l.hole_position().index(l.size) == l.hole(),
{
    lemma_position_of(l.size, l.hole());
}

/// The cell that a legal move takes its tile from lies on the board,
/// beside the hole.
pub proof fn lemma_source(l: Layout, m: Move)
    requires
        l.valid(),
        l.legal(m),
    ensures
        m.source(l.hole_position()).within(l.size),
        0 <= m.source(l.hole_position()).index(l.size) < l.cells(),
        m.source(l.hole_position()).index(l.size) != l.hole(),
        m.reverse().legal_at(l.size, m.source(l.hole_position())),
        m.reverse().source(m.source(l.hole_position())) == l.hole_position(),
{
    lemma_hole(l);
    lemma_index_of(l.size, m.source(l.hole_position()));
}

/// A legal move leads from a valid state to a valid state whose hole is
/// where the tile came from.
pub proof fn lemma_slide(l: Layout, m: Move)
    requires
        l.valid(),
    ensures
        l.slide(m).valid(),
        l.slide(m).size == l.size,
        l.legal(m) ==> l.slide(m).hole() == m.source(l.hole_position()).index(l.size),
        l.legal(m) ==> l.slide(m).hole_position() == m.source(l.hole_position()),
        l.legal(m) ==> l.slide(m) != l,
{
    if l.legal(m) {
        lemma_hole(l);
        lemma_source(l, m);
        let h = l.hole();
        let s = m.source(l.hole_position()).index(l.size);
        let next = l.slide(m);
        assert(next.tiles[s] == Tile::Hole);
        assert(next.tiles.contains(Tile::Hole));
        assert forall|i: int| 0 <= i < next.tiles.len() implies (#[trigger] next.tiles[i]).fits(
            next.cells(),
        ) by {
            if i == h {
                assert(l.tiles[s].fits(l.cells()));
            } else if i == s {
                assert(l.tiles[h].fits(l.cells()));
            } else {
                assert(l.tiles[i].fits(l.cells()));
            }
        }
        assert forall|i: int, j: int|
            0 <= i < next.tiles.len() && 0 <= j < next.tiles.len() && i != j implies next.tiles[i]
            != next.tiles[j] by {
            let pi = if i == h {
                s
            } else if i == s {
                h
            } else {
                i
            };
            let pj = if j == h {
                s
            } else if j == s {
                h
            } else {
                j
            };
            assert(next.tiles[i] == l.tiles[pi]);
            assert(next.tiles[j] == l.tiles[pj]);
            assert(pi != pj);
        }
        lemma_hole(next);
        lemma_index_of(l.size, m.source(l.hole_position()));
        assert(next.tiles[h] != Tile::Hole);
    }
}

/// Moves are invertible: after a legal move its reverse is legal and
/// leads back.
pub proof fn lemma_slide_reverse(l: Layout, m: Move)
    requires
        l.valid(),
        l.legal(m),
    ensures
        l.slide(m).legal(m.reverse()),
        l.slide(m).slide(m.reverse()) == l,
{
    lemma_hole(l);
    lemma_source(l, m);
    lemma_slide(l, m);
    let next = l.slide(m);
    lemma_hole(next);
    let back = next.slide(m.reverse());
    assert(back.tiles =~= l.tiles);
}

/// The goal layout is a valid state and is solved, and it is the only
/// solved state of its size.
pub proof fn lemma_goal(size: int)
    requires
        2 <= size <= 16,
    ensures
        Layout::goal(size).valid(),
        Layout::goal(size).solved(),
        Layout::goal(size).size == size,
        Layout::goal(size).hole() == size * size - 1,
        forall|l: Layout| l.valid() && l.size == size && l.solved() ==> l == Layout::goal(size),
{
    let g = Layout::goal(size);
    assert(4 <= size * size <= 256) by (nonlinear_arith)
        requires
            2 <= size <= 16,
    ;
    assert(g.tiles[size * size - 1] == Tile::Hole);
    assert(g.tiles.contains(Tile::Hole));
    lemma_hole(g);
    assert forall|l: Layout| l.valid() && l.size == size && l.solved() implies l == g by {
        assert(l.tiles =~= g.tiles);
    }
}

impl Move {
    /// The place of the move in the order of `Move::all`.
    pub open spec fn place(self) -> int {
        match self {
            Move::Up => 0,
            Move::Right => 1,
            Move::Down => 2,
            Move::Left => 3,
        }
    }
}

/// The moves offered stand in the order of `Move::all`.
pub proof fn lemma_moves_in_order(l: Layout, last: Option<Move>)
    ensures
        forall|i: int, j: int|
            0 <= i < j < l.moves(last).len() ==> (#[trigger] l.moves(last)[i]).place() < (
            #[trigger] l.moves(last)[j]).place(),
{
    let up = l.pick(last, Move::Up);
    let right = l.pick(last, Move::Right);
    let down = l.pick(last, Move::Down);
    let left = l.pick(last, Move::Left);
    let moves = l.moves(last);
    assert forall|i: int| 0 <= i < moves.len() implies ((#[trigger] moves[i]) == Move::Up <==> i
        < up.len()) && (moves[i] == Move::Right <==> up.len() <= i < up.len() + right.len()) && (
    moves[i] == Move::Down <==> up.len() + right.len() <= i < up.len() + right.len()
        + down.len()) by {}
}

/// A valid state always offers a move: the hole has a neighbour in its
/// row and one in its column, and the last move rules out one of them at
/// most.
pub proof fn lemma_some_move(l: Layout, last: Option<Move>)
    requires
        l.valid(),
    ensures
        l.moves(last).len() >= 1,
{
    lemma_hole(l);
    lemma_moves(l, last);
    let vertical = if l.legal(Move::Up) {
        Move::Up
    } else {
        Move::Down
    };
    let horizontal = if l.legal(Move::Right) {
        Move::Right
    } else {
        Move::Left
    };
    let m = if l.offers(last, vertical) {
        vertical
    } else {
        horizontal
    };
    assert(l.offers(last, m));
    assert(l.moves(last).contains(m));
}

/// The moves offered are the legal ones that do not undo the last move,
/// each once.
pub proof fn lemma_moves(l: Layout, last: Option<Move>)
    ensures
        forall|m: Move| l.moves(last).contains(m) <==> l.offers(last, m),
        last matches Some(undone) ==> !l.moves(last).contains(undone.reverse()),
        l.moves(last).no_duplicates(),
        l.moves(last).len() <= 4,
{
    let up = l.pick(last, Move::Up);
    let right = l.pick(last, Move::Right);
    let down = l.pick(last, Move::Down);
    let left = l.pick(last, Move::Left);
    let moves = l.moves(last);
    assert(moves.len() == up.len() + right.len() + down.len() + left.len());
    assert forall|m: Move| l.offers(last, m) implies moves.contains(m) by {
        let k: int = match m {
            Move::Up => 0,
            Move::Right => up.len() as int,
            Move::Down => (up.len() + right.len()) as int,
            Move::Left => (up.len() + right.len() + down.len()) as int,
        };
        assert(moves[k] == m);
    }
    assert forall|i: int| 0 <= i < moves.len() implies l.offers(last, #[trigger] moves[i]) && (
    moves[i] == Move::Up <==> i < up.len()) && (moves[i] == Move::Right <==> up.len() <= i
        < up.len() + right.len()) && (moves[i] == Move::Down <==> up.len() + right.len() <= i
        < up.len() + right.len() + down.len()) by {}
}

/// Why a puzzle could not be built.
#[derive(Clone, Copy, Debug, PartialEq, Eq, Structural)]
pub enum TaquinError {
    /// The side is below 2.
    SizeTooSmall,
    /// The side is above 16, so that a tile's number would not fit in a byte.
    SizeTooLarge,
    /// The number of tiles is not the number of cells.
    TileCount,
    /// No cell is empty.
    MissingHole,
    /// A tile's number is 0 or above the last tile's number.
    TileOutOfRange,
    /// Two cells hold the same tile.
    DuplicateTile,
    /// The text is not a list of numbers from 0 to 255 separated by commas.
    Syntax,
}

/// What is wrong with a layout, if anything: the first of the flaws in the
/// order of `TaquinError`.
pub open spec fn flaw(size: int, tiles: Seq<Tile>) -> Option<TaquinError> {
    if size < 2 {
        Some(TaquinError::SizeTooSmall)
    } else if size > 16 {
        Some(TaquinError::SizeTooLarge)
    } else if tiles.len() != size * size {
        Some(TaquinError::TileCount)
    } else if !tiles.contains(Tile::Hole) {
        Some(TaquinError::MissingHole)
    } else if exists|i: int| 0 <= i < tiles.len() && !(#[trigger] tiles[i]).fits(size * size) {
        Some(TaquinError::TileOutOfRange)
    } else if !tiles.no_duplicates() {
        Some(TaquinError::DuplicateTile)
    } else {
        None
    }
}

/// The tiles that a list of numbers stands for, 0 for the hole.
pub open spec fn tiles_of(codes: Seq<u8>) -> Seq<Tile> {
    codes.map_values(|code: u8| Tile::of(code))
}

/// What is wrong with the text of a layout, if anything: the side, then
/// the text itself, then the tiles that it lists.
pub open spec fn text_flaw(size: int, text: Seq<char>) -> Option<TaquinError> {
    if size < 2 {
        Some(TaquinError::SizeTooSmall)
    } else if size > 16 {
        Some(TaquinError::SizeTooLarge)
    } else {
        match numbers(text) {
            None => Some(TaquinError::Syntax),
            Some(codes) => flaw(size, tiles_of(codes)),
        }
    }
}

/// A layout without a flaw is a valid state, and conversely.
pub proof fn lemma_flawless(size: int, tiles: Seq<Tile>)
    ensures
        flaw(size, tiles) is None <==> (Layout { size, tiles }).valid(),
{
}

/// A state of the puzzle.
#[derive(Debug, PartialEq, Eq, Hash)]
pub struct Taquin {
    grid: Grid<Tile>,
}

impl View for Taquin {
    type V = Layout;

    closed spec fn view(&self) -> Layout {
        Layout { size: self.grid.side(), tiles: self.grid@ }
    }
}

impl Clone for Taquin {
    /// An independent copy of the state.
    fn clone(&self) -> (r: Self)
        ensures
            r@ == self@,
    {
        let grid = self.grid.clone();
        assert(grid@ =~= self.grid@);
        Taquin { grid }
    }
}

impl Taquin {
    /// The invariant: the tiles form a valid state.
    pub open spec fn wf(&self) -> bool {
        self@.valid()
    }

    /// The solved puzzle of side `size`, for a side from 2 to 16.
    pub fn new(size: Size) -> (r: Result<Taquin, TaquinError>)
        ensures
            match r {
                Ok(t) => 2 <= size <= 16 && t.wf() && t@ == Layout::goal(size as int),
                Err(e) => e == if size < 2 {
                    TaquinError::SizeTooSmall
                } else {
                    TaquinError::SizeTooLarge
                } && !(2 <= size <= 16),
            },
    {
        if size < 2 {
            return Err(TaquinError::SizeTooSmall);
        }
        if size > 16 {
            return Err(TaquinError::SizeTooLarge);
        }
        let side: usize = size as usize;
        assert(4 <= side * side <= 256) by (nonlinear_arith)
            requires
                2 <= side <= 16,
        ;
        let last_index: usize = side * side - 1;
        let mut tiles: Vec<Tile> = Vec::new();
        let mut i: usize = 0;
        while i < last_index
            invariant
                i <= last_index < 256,
                tiles@.len() == i,
                forall|k: int| 0 <= k < i ==> #[trigger] tiles@[k] == Tile::Value((k + 1) as u8),
            decreases last_index - i,
        {
            tiles.push(Tile::Value((i + 1) as u8));
            i += 1;
        }
        tiles.push(Tile::Hole);
        proof {
            assert(tiles@ =~= Layout::goal(size as int).tiles);
            lemma_goal(size as int);
        }
        match Grid::new(size, tiles) {
            Ok(grid) => Ok(Taquin { grid }),
            Err(_) => Err(TaquinError::TileCount),
        }
    }

    /// The puzzle of side `size` with the given tiles in row-major order.
    pub fn from_tiles(size: Size, tiles: Vec<Tile>) -> (r: Result<Taquin, TaquinError>)
        ensures
            match r {
                Ok(t) => flaw(size as int, tiles@) is None && t.wf() && t@ == (Layout {
                    size: size as int,
                    tiles: tiles@,
                }),
                Err(e) => flaw(size as int, tiles@) == Some(e),
            },
    {
        if size < 2 {
            return Err(TaquinError::SizeTooSmall);
        }
        if size > 16 {
            return Err(TaquinError::SizeTooLarge);
        }
        let side: usize = size as usize;
        assert(4 <= side * side <= 256) by (nonlinear_arith)
            requires
                2 <= side <= 16,
        ;
        let cells: usize = side * side;
        if tiles.len() != cells {
            return Err(TaquinError::TileCount);
        }
        let mut has_hole = false;
        let mut i: usize = 0;
        while i < cells
            invariant
                i <= cells == tiles@.len(),
                has_hole <==> exists|k: int| 0 <= k < i && tiles@[k] == Tile::Hole,
            decreases cells - i,
        {
            if tiles[i] == Tile::Hole {
                has_hole = true;
            }
            i += 1;
        }
        if !has_hole {
            return Err(TaquinError::MissingHole);
        }
        assert(tiles@.contains(Tile::Hole));
        i = 0;
        while i < cells
            invariant
                i <= cells == tiles@.len(),
                cells == size * size,
                2 <= size <= 16,
                tiles@.contains(Tile::Hole),
                forall|k: int| 0 <= k < i ==> (#[trigger] tiles@[k]).fits(cells as int),
            decreases cells - i,
        {
            match tiles[i] {
                Tile::Hole => {},
                Tile::Value(v) => {
                    if v == 0 || v as usize >= cells {
                        assert(!tiles@[i as int].fits(cells as int));
                        return Err(TaquinError::TileOutOfRange);
                    }
                },
            }
            i += 1;
        }
        let mut seen: Vec<bool> = Vec::new();
        i = 0;
        while i < cells
            invariant
                i <= cells,
                seen@.len() == i,
                forall|c: int| 0 <= c < i ==> !#[trigger] seen@[c],
            decreases cells - i,
        {
            seen.push(false);
            i += 1;
        }
        i = 0;
        while i < cells
            invariant
                i <= cells == tiles@.len(),
                cells <= 256,
                cells == size * size,
                2 <= size <= 16,
                tiles@.contains(Tile::Hole),
                seen@.len() == cells,
                forall|k: int| 0 <= k < cells ==> (#[trigger] tiles@[k]).fits(cells as int),
                forall|c: int|
                    0 <= c < cells ==> (#[trigger] seen@[c] <==> exists|k: int|
                        0 <= k < i && (#[trigger] tiles@[k]).code() == c),
                forall|j: int, k: int| 0 <= j < k < i ==> tiles@[j] != tiles@[k],
            decreases cells - i,
        {
            let tile = tiles[i];
            assert(tile.fits(cells as int));
            let code: usize = tile.code() as usize;
            if seen[code] {
                proof {
                    let k = choose|k: int| 0 <= k < i && (#[trigger] tiles@[k]).code() == code;
                    assert(tiles@[k].fits(cells as int));
                    assert(tiles@[k] == tiles@[i as int]);
                }
                return Err(TaquinError::DuplicateTile);
            }
            proof {
                assert forall|j: int| 0 <= j < i implies tiles@[j] != tiles@[i as int] by {
                    if tiles@[j] == tiles@[i as int] {
                        assert(tiles@[j].code() == code);
                    }
                }
            }
            let ghost before = seen@;
            seen.set(code, true);
            proof {
                assert forall|c: int| 0 <= c < cells implies (#[trigger] seen@[c] <==> exists|k: int|
                    0 <= k < i + 1 && (#[trigger] tiles@[k]).code() == c) by {
                    if c == code {
                        assert(tiles@[i as int].code() == c);
                    } else {
                        if before[c] {
                            let k = choose|k: int|
                                0 <= k < i && (#[trigger] tiles@[k]).code() == c;
                            assert(0 <= k < i + 1 && tiles@[k].code() == c);
                        }
                    }
                }
            }
            i += 1;
        }
        match Grid::new(size, tiles) {
            Ok(grid) => Ok(Taquin { grid }),
            Err(_) => Err(TaquinError::TileCount),
        }
    }

    /// The puzzle of side `size` whose tiles the text lists in row-major
    /// order: numbers separated by commas, 0 for the hole, blanks allowed
    /// around each number.
    pub fn from_str(size: Size, str: &str) -> (r: Result<Taquin, TaquinError>)
        ensures
            match r {
                Ok(t) => text_flaw(size as int, str@) is None && t.wf() && t@ == (Layout {
                    size: size as int,
                    tiles: tiles_of(numbers(str@)->0),
                }),
                Err(e) => text_flaw(size as int, str@) == Some(e),
            },
    {
        if size < 2 {
            return Err(TaquinError::SizeTooSmall);
        }
        if size > 16 {
            return Err(TaquinError::SizeTooLarge);
        }
        let codes = match parse_numbers(str) {
            Some(codes) => codes,
            None => {
                return Err(TaquinError::Syntax);
            },
        };
        let mut tiles: Vec<Tile> = Vec::new();
        let mut i: usize = 0;
        while i < codes.len()
            invariant
                i <= codes@.len(),
                tiles@.len() == i,
                forall|k: int| 0 <= k < i ==> #[trigger] tiles@[k] == Tile::of(codes@[k]),
            decreases codes@.len() - i,
        {
            tiles.push(Tile::from(codes[i]));
            i += 1;
        }
        assert(tiles@ =~= tiles_of(codes@));
        Taquin::from_tiles(size, tiles)
    }

    /// The side length.
    pub fn size(&self) -> (s: Size)
        ensures
            s == self@.size,
    {
        self.grid.size()
    }

    /// The puzzle as a text: one line for each row, the tiles of a row with
    /// a space between them, a middle dot for the hole.
    pub fn to_string(&self) -> (text: String)
        requires
            self.wf(),
        ensures
            text@ == self@.render(),
    {
        let size = self.size();
        let mut text = String::new();
        let mut i: usize = 0;
        assert(self@.tiles.len() <= 256) by (nonlinear_arith)
            requires
                self@.tiles.len() == self@.size * self@.size,
                2 <= self@.size <= 16,
        ;
        for tile in it: self.grid.iter()
            invariant
                self.wf(),
                size == self@.size,
                i == it.index(),
                it.seq() == self@.tiles.as_ref(),
                self@.tiles.len() <= 256,
                text@ == self@.render_upto(i as int),
        {
            proof {
                lemma_position_of(self@.size, i as int);
            }
            let ghost before = text@;
            match self.grid.index_to_position(i) {
                Some(pos) => {
                    if pos.column() > 0 {
                        proof {
                            reveal_strlit(" ");
                        }
                        text.append(" ");
                    }
                    tile.write(&mut text);
                    if pos.column() == size - 1 && pos.row() < size - 1 {
                        proof {
                            reveal_strlit("\n");
                        }
                        text.append("\n");
                    }
                    assert(text@ =~= before + self@.cell(i as int));
                },
                None => {},
            }
            i += 1;
        }
        text
    }

    /// The numbers that stand for the tiles, in row-major order, 0 for the
    /// hole.
    pub fn tiles(&self) -> (codes: Vec<u8>)
        requires
            self.wf(),
        ensures
            codes@ == self@.tiles.map_values(|t: Tile| t.code()),
    {
        let mut codes: Vec<u8> = Vec::new();
        let n = self.grid.len();
        let mut i: usize = 0;
        while i < n
            invariant
                self.wf(),
                i <= n == self@.tiles.len(),
                codes@.len() == i,
                forall|k: int| 0 <= k < i ==> #[trigger] codes@[k] == self@.tiles[k].code(),
            decreases n - i,
        {
            proof {
                let size = self@.size;
                assert(i < 256 * size) by (nonlinear_arith)
                    requires
                        i < size * size,
                        2 <= size <= 16,
                ;
                lemma_position_of(size, i as int);
            }
            let position = self.get_position(i);
            match self.grid.get(&position) {
                Some(tile) => codes.push(tile.code()),
                None => {},
            }
            i += 1;
        }
        assert(codes@ =~= self@.tiles.map_values(|t: Tile| t.code()));
        codes
    }

    /// Whether every cell but the last holds its index plus one and the last
    /// is empty.
    pub fn is_solved(&self) -> (b: bool)
        requires
            self.wf(),
        ensures
            b == self@.solved(),
    {
        let n = self.grid.len();
        assert(4 <= n <= 256) by (nonlinear_arith)
            requires
                n == self@.size * self@.size,
                2 <= self@.size <= 16,
        ;
        let last_index: usize = n - 1;
        let mut i: usize = 0;
        for tile in it: self.grid.iter()
            invariant
                self.wf(),
                n == self@.tiles.len(),
                last_index == n - 1,
                n <= 256,
                i == it.index(),
                it.seq() == self@.tiles.as_ref(),
                forall|k: int| 0 <= k < i ==> #[trigger] self@.tiles[k] == Tile::Value((k + 1) as u8),
        {
            if i == last_index {
                return *tile == Tile::Hole;
            } else if *tile != Tile::Value((i + 1) as u8) {
                assert(self@.tiles[i as int] != Tile::Value((i + 1) as u8));
                return false;
            }
            i += 1;
        }
        false
    }

    /// The position of the hole.
    pub fn find_hole(&self) -> (hole: Position)
        requires
            self.wf(),
        ensures
            hole == self@.hole_position(),
            hole.within(self@.size),
    {
        let is_hole = |tile: &Tile| -> (b: bool)
            ensures
                b == (*tile == Tile::Hole),
            { *tile == Tile::Hole };
        proof {
            lemma_hole(self@);
        }
        match self.grid.find(is_hole) {
            Some(position) => {
                proof {
                    lemma_index_of(self@.size, position);
                }
                position
            },
            None => {
                proof {
                    assert(self@.tiles[self@.hole()] == Tile::Hole);
                    assert(false);
                }
                Position::new(0, 0)
            },
        }
    }

    /// Whether a move can be made with the hole at `hole_position`: there
    /// must be a tile on the side that the move takes it from.
    pub fn is_valid(&self, user_move: Move, hole_position: &Position) -> (b: bool)
        requires
            self.wf(),
        ensures
            b == user_move.legal_at(self@.size, *hole_position),
    {
        let row = hole_position.row();
        let column = hole_position.column();
        match user_move {
            Move::Up => row < self.size() - 1,
            Move::Right => column > 0,
            Move::Down => row > 0,
            Move::Left => column < self.size() - 1,
        }
    }

    /// The cell whose tile a move slides into the hole at `hole_position`.
    /// The move must be one that `is_valid` accepts there.
    pub fn apply_move(hole_position: &Position, cmd: Move) -> (source: Position)
        requires
            cmd.legal_at(256, *hole_position),
        ensures
            source == cmd.source(*hole_position),
    {
        let row = hole_position.row();
        let column = hole_position.column();
        match cmd {
            Move::Up => Position::new(row + 1, column),
            Move::Right => Position::new(row, column - 1),
            Move::Down => Position::new(row - 1, column),
            Move::Left => Position::new(row, column + 1),
        }
    }

    /// The state after a move: a new puzzle with the hole and the tile
    /// beside it exchanged, or an unchanged copy if the move is not legal.
    pub fn move_hole(&self, user_move: Move) -> (next: Taquin)
        requires
            self.wf(),
        ensures
            next.wf(),
            next@ == self@.slide(user_move),
    {
        let hole_position = self.find_hole();
        proof {
            lemma_slide(self@, user_move);
        }
        if self.is_valid(user_move, &hole_position) {
            proof {
                lemma_hole(self@);
                lemma_source(self@, user_move);
            }
            let position = Taquin::apply_move(&hole_position, user_move);
            let mut new_grid = self.grid.clone();
            assert(new_grid@ =~= self.grid@);
            new_grid.swap(&position, &hole_position);
            assert(new_grid@ =~= self@.slide(user_move).tiles);
            Taquin { grid: new_grid }
        } else {
            self.clone()
        }
    }

    /// Makes the move that stands at `choice`, counted round and round,
    /// among the moves offered after `last_move`, and returns it.
    pub fn scramble(&mut self, last_move: Option<Move>, choice: usize) -> (made: Move)
        requires
            old(self).wf(),
        ensures
            final(self).wf(),
            old(self)@.moves(last_move).len() > 0,
            made == old(self)@.moves(last_move)[choice as int % old(self)@.moves(last_move).len() as int],
            final(self)@ == old(self)@.slide(made),
    {
        let hole_position = self.find_hole();
        let valid_moves = self.valid_moves(last_move);
        proof {
            lemma_some_move(self@, last_move);
            lemma_moves(self@, last_move);
        }
        let current_move = valid_moves[choice % valid_moves.len()];
        proof {
            assert(self@.moves(last_move).contains(current_move));
            lemma_hole(self@);
            lemma_source(self@, current_move);
            lemma_slide(self@, current_move);
        }
        let position = Taquin::apply_move(&hole_position, current_move);
        self.grid.swap(&position, &hole_position);
        assert(self.grid@ =~= old(self)@.slide(current_move).tiles);
        current_move
    }

    /// Makes `count` moves chosen at random, each among the moves offered
    /// after the one before it.
    pub fn shuffle(&mut self, count: u32)
        requires
            old(self).wf(),
        ensures
            final(self).wf(),
            exists|walk: Seq<Move>|
                walk.len() == count && offered::<Move, Taquin>(old(self)@, walk)
                    && #[trigger] destination::<Move, Taquin>(old(self)@, walk) == final(self)@,
    {
        let mut last_move: Option<Move> = None;
        let mut rng = rand::thread_rng();
        let ghost mut walk: Seq<Move> = Seq::empty();
        let mut i: u32 = 0;
        while i < count
            invariant
                self.wf(),
                i <= count,
                walk.len() == i,
                last_move == last_of(walk),
                offered::<Move, Taquin>(old(self)@, walk),
                destination::<Move, Taquin>(old(self)@, walk) == self@,
            decreases count - i,
        {
            let valid_moves = self.valid_moves(last_move);
            proof {
                lemma_some_move(self@, last_move);
            }
            let index = below(&mut rng, valid_moves.len());
            let ghost before = self@;
            let current_move = self.scramble(last_move, index);
            proof {
                let longer = walk.push(current_move);
                assert(longer.drop_last() =~= walk);
                assert(before.moves(last_move).contains(current_move));
                walk = longer;
            }
            last_move = Some(current_move);
            i += 1;
        }
    }

    /// The moves that can be made now, in the order of `Move::all`, without
    /// the one that would undo `last_move`.
    pub fn valid_moves(&self, last_move: Option<Move>) -> (moves: Vec<Move>)
        requires
            self.wf(),
        ensures
            moves@ == self@.moves(last_move),
    {
        let hole_position = self.find_hole();
        let all = Move::all();
        let mut valid_moves: Vec<Move> = Vec::new();
        let ghost l = self@;
        let mut i: usize = 0;
        while i < 4
            invariant
                self.wf(),
                l == self@,
                hole_position == l.hole_position(),
                all@ == Move::spec_all(),
                i <= 4,
                valid_moves@ == if i == 0 {
                    Seq::<Move>::empty()
                } else if i == 1 {
                    l.pick(last_move, Move::Up)
                } else if i == 2 {
                    l.pick(last_move, Move::Up) + l.pick(last_move, Move::Right)
                } else if i == 3 {
                    l.pick(last_move, Move::Up) + l.pick(last_move, Move::Right) + l.pick(
                        last_move,
                        Move::Down,
                    )
                } else {
                    l.moves(last_move)
                },
            decreases 4 - i,
        {
            let m = all[i];
            let not_back = match last_move {
                Some(last) => last != m.reverse(),
                None => true,
            };
            let ghost before = valid_moves@;
            if not_back && self.is_valid(m, &hole_position) {
                valid_moves.push(m);
                assert(valid_moves@ =~= before + l.pick(last_move, m));
            } else {
                assert(before =~= before + l.pick(last_move, m));
            }
            i += 1;
        }
        valid_moves
    }

    /// Whether two puzzles are the same state.
    pub fn same(&self, other: &Taquin) -> (b: bool)
        requires
            self.wf(),
            other.wf(),
        ensures
            b == (self@ == other@),
    {
        if self.size() != other.size() {
            return false;
        }
        let n = self.grid.len();
        let mut i: usize = 0;
        while i < n
            invariant
                self.wf(),
                other.wf(),
                self@.size == other@.size,
                i <= n == self@.tiles.len(),
                forall|k: int| 0 <= k < i ==> self@.tiles[k] == other@.tiles[k],
            decreases n - i,
        {
            proof {
                let size = self@.size;
                assert(i < 256 * size) by (nonlinear_arith)
                    requires
                        i < size * size,
                        2 <= size <= 16,
                ;
                lemma_position_of(size, i as int);
            }
            let position = self.get_position(i);
            match (self.grid.get(&position), other.grid.get(&position)) {
                (Some(a), Some(b)) => {
                    if *a != *b {
                        return false;
                    }
                },
                _ => {},
            }
            i += 1;
        }
        assert(self@.tiles =~= other@.tiles);
        true
    }

    /// The number under which the state is filed by a search.
    pub fn digest(&self) -> (d: u64)
        requires
            self.wf(),
        ensures
            d == self@.digest(),
    {
        let mut digest: u64 = self.size() as u64;
        for tile in it: self.grid.iter()
            invariant
                it.seq() == self@.tiles.as_ref(),
                digest == self@.digest_upto(it.index()),
        {
            digest = digest.wrapping_mul(31).wrapping_add(tile.code() as u64);
        }
        digest
    }

    /// A shortest sequence of moves that solves the puzzle, or
    /// `NoSolutionFound` if no sequence of moves solves it.
    pub fn solve(&self) -> (r: Result<Vec<Move>, SolverError>)
        requires
            self.wf(),
        ensures
            match r {
                Ok(moves) => is_shortest_solution::<Move, Taquin>(self@, moves@)
                    && is_first_solution::<Move, Taquin>(self@, moves@),
                Err(e) => e == SolverError::NoSolutionFound && !solvable::<Move, Taquin>(self@),
            },
            self@.solved() ==> (r matches Ok(moves) && moves@.len() == 0),
    {
        solve(self)
    }

    /// The row-major index of a position.
    pub fn get_index(&self, position: Position) -> (index: usize)
        requires
            self.wf(),
        ensures
            index == position.index(self@.size),
    {
        let side: usize = self.size() as usize;
        assert(position.row * side <= 255 * 16) by (nonlinear_arith)
            requires
                position.row <= 255,
                side <= 16,
        ;
        position.row() as usize * side + position.column() as usize
    }

    /// The position of a row-major index, for an index whose row fits in a
    /// byte.
    pub fn get_position(&self, index: usize) -> (position: Position)
        requires
            self.wf(),
            index < 256 * self@.size,
        ensures
            position == position_of(self@.size, index as int),
    {
        let side: usize = self.size() as usize;
        assert(index / side <= 255 && index % side < side) by (nonlinear_arith)
            requires
                index < 256 * side,
                2 <= side,
        ;
        Position::new((index / side) as u8, (index % side) as u8)
    }

    /// The move that slides the tile at `position` into the hole, or `None`
    /// if that cell is not beside the hole.
    pub fn move_from_position(&self, position: Position) -> (r: Option<Move>)
        requires
            self.wf(),
        ensures
            match r {
                Some(m) => self@.legal(m) && m.source(self@.hole_position()) == position,
                None => forall|m: Move|
                    self@.legal(m) ==> m.source(self@.hole_position()) != position,
            },
    {
        let hole_position = self.find_hole();
        let all = Move::all();
        let mut i: usize = 0;
        while i < 4
            invariant
                self.wf(),
                hole_position == self@.hole_position(),
                hole_position.within(self@.size),
                all@ == Move::spec_all(),
                i <= 4,
                forall|k: int|
                    0 <= k < i && self@.legal(#[trigger] all@[k]) ==> all@[k].source(hole_position)
                        != position,
            decreases 4 - i,
        {
            let m = all[i];
            if self.is_valid(m, &hole_position) {
                let source = Taquin::apply_move(&hole_position, m);
                if source == position {
                    return Some(m);
                }
            }
            i += 1;
        }
        proof {
            assert forall|m: Move| self@.legal(m) implies m.source(self@.hole_position())
                != position by {
                let k: int = match m {
                    Move::Up => 0,
                    Move::Right => 1,
                    Move::Down => 2,
                    Move::Left => 3,
                };
                assert(all@[k] == m);
            }
        }
        None
    }
}

impl Problem<Move> for Taquin {
    open spec fn valid(state: Layout) -> bool {
        state.valid()
    }

    open spec fn goal(state: Layout) -> bool {
        state.solved()
    }

    /// The legal moves that do not undo the last of the previous ones.
    open spec fn offers(state: Layout, previous: Seq<Move>) -> Seq<Move> {
        state.moves(last_of(previous))
    }

    open spec fn after(state: Layout, step: Move) -> Layout {
        state.slide(step)
    }

    open spec fn digest_of(state: Layout) -> u64 {
        state.digest()
    }

    proof fn lemma_after_valid(state: Layout, step: Move) {
        lemma_slide(state, step);
    }

    proof fn lemma_offers_allowed(state: Layout, previous: Seq<Move>, step: Move) {
        lemma_moves(state, last_of(previous));
        lemma_moves(state, None);
    }

    proof fn lemma_ruled_out_leads_back(
        origin: Layout,
        previous: Seq<Move>,
        taken: Move,
        step: Move,
    ) {
        let state = origin.slide(taken);
        lemma_moves(origin, last_of(previous));
        lemma_moves(state, None);
        lemma_moves(state, Some(taken));
        assert(last_of(previous.push(taken)) == Some(taken));
        lemma_reverse_involutive(step);
        lemma_slide_reverse(origin, taken);
    }

    proof fn lemma_offers_in_order(state: Layout, previous: Seq<Move>, i: int, j: int) {
        let offered = state.moves(last_of(previous));
        let allowed = state.moves(None);
        lemma_moves(state, last_of(previous));
        lemma_moves(state, None);
        lemma_moves_in_order(state, last_of(previous));
        lemma_moves_in_order(state, None);
        assert(offered.contains(offered[i]));
        assert(offered.contains(offered[j]));
        let a = allowed.index_of(offered[i]);
        let b = allowed.index_of(offered[j]);
        assert(allowed.contains(offered[i]));
        assert(allowed.contains(offered[j]));
    }

    proof fn lemma_clone(state: Taquin, copy: Taquin) {
    }

    fn is_solved(&self) -> (b: bool) {
        Taquin::is_solved(self)
    }

    fn available_steps(&self, previous_steps: &[Move]) -> (steps: Vec<Move>) {
        match previous_steps.last() {
            Some(last) => self.valid_moves(Some(*last)),
            None => self.valid_moves(None),
        }
    }

    fn next(&self, step: Move) -> (state: Taquin) {
        self.move_hole(step)
    }

    fn same(&self, other: &Taquin) -> (b: bool) {
        Taquin::same(self, other)
    }

    fn digest(&self) -> (d: u64) {
        Taquin::digest(self)
    }
}

/// What shows a tile is one word.
pub proof fn lemma_glyphs_are_a_word(tile: Tile)
    ensures
        tile.glyphs().len() >= 1,
        forall|i: int| 0 <= i < tile.glyphs().len() ==> !parts_words(#[trigger] tile.glyphs()[i]),
{
    match tile {
        Tile::Hole => {},
        Tile::Value(v) => {
            lemma_numeral_is_a_word(v as int);
        },
    }
}

/// The words of what shows the first `n` cells are what shows each of
/// these tiles, and an empty word to come where a row has just ended.
proof fn lemma_render_upto_words(l: Layout, n: int)
    requires
        l.valid(),
        0 <= n <= l.cells(),
    ensures
        words(l.render_upto(n)) == if n == 0 || l.ends_row(n - 1) {
            l.shown().take(n).push(Seq::empty())
        } else {
            l.shown().take(n)
        },
    decreases n,
{
    let nothing = Seq::<char>::empty();
    if n == 0 {
        assert(l.shown().take(0).push(nothing) =~= seq![nothing]);
    } else {
        let i = n - 1;
        let size = l.size;
        lemma_render_upto_words(l, i);
        assert(i < size * size);
        assert(0 <= i % size < size && 0 <= i / size < size && (i == 0 ==> i % size == 0))
            by (nonlinear_arith)
            requires
                0 <= i < size * size,
                2 <= size,
        ;
        if i >= 1 {
            assert((i % size > 0 ==> (i - 1) % size == i % size - 1) && (i % size == 0 ==> (i - 1)
                % size == size - 1 && (i - 1) / size == i / size - 1)) by (nonlinear_arith)
                requires
                    1 <= i,
                    2 <= size,
            ;
        }
        let before = l.render_upto(i);
        let glyphs = l.tiles[i].glyphs();
        let told = l.shown().take(i);
        let lead = if i % size > 0 {
            seq![' ']
        } else {
            nothing
        };
        let trail = if l.ends_row(i) {
            seq!['\n']
        } else {
            nothing
        };
        let led = before + lead;
        assert(words(led) == told.push(nothing)) by {
            if i % size > 0 {
                assert(led.drop_last() =~= before);
                assert(led.last() == ' ');
            } else {
                assert(led =~= before);
            }
        }
        lemma_glyphs_are_a_word(l.tiles[i]);
        lemma_words_grow(led, glyphs);
        let said = led + glyphs;
        assert(nothing + glyphs =~= glyphs);
        assert(l.shown()[i] == glyphs);
        assert(words(said) =~= l.shown().take(n));
        let all = said + trail;
        assert(l.render_upto(n) =~= all);
        if l.ends_row(i) {
            assert(all.drop_last() =~= said);
            assert(all.last() == '\n');
        } else {
            assert(all =~= said);
        }
    }
}

/// What shows a state lists, word for word, what shows each of its
/// tiles in row-major order.
pub proof fn lemma_render_words(l: Layout)
    requires
        l.valid(),
    ensures
        words(l.render()) == l.shown(),
{
    let size = l.size;
    let n = l.cells();
    assert(n >= 4 && (n - 1) / size == size - 1) by (nonlinear_arith)
        requires
            n == size * size,
            2 <= size,
    ;
    lemma_render_upto_words(l, n);
    assert(l.shown().take(n) =~= l.shown());
}

/// Tiles that are shown alike are the same tile.
pub proof fn lemma_glyphs_tell_tile(a: Tile, b: Tile)
    requires
        a.glyphs() == b.glyphs(),
    ensures
        a == b,
{
    match (a, b) {
        (Tile::Value(v), Tile::Value(w)) => {
            lemma_numeral_spells(v as int);
            lemma_numeral_spells(w as int);
        },
        (Tile::Value(v), Tile::Hole) => {
            lemma_numeral_is_a_word(v as int);
            assert(b.glyphs()[0] == '\u{b7}');
        },
        (Tile::Hole, Tile::Value(w)) => {
            lemma_numeral_is_a_word(w as int);
            assert(a.glyphs()[0] == '\u{b7}');
        },
        (Tile::Hole, Tile::Hole) => {},
    }
}

/// States of one size that are shown alike are the same state.
pub proof fn lemma_render_tells_state(a: Layout, b: Layout)
    requires
        a.valid(),
        b.valid(),
        a.size == b.size,
        a.render() == b.render(),
    ensures
        a == b,
{
    lemma_render_words(a);
    lemma_render_words(b);
    assert forall|i: int| 0 <= i < a.tiles.len() implies a.tiles[i] == b.tiles[i] by {
        assert(a.shown()[i] == a.tiles[i].glyphs());
        assert(b.shown()[i] == b.tiles[i].glyphs());
        lemma_glyphs_tell_tile(a.tiles[i], b.tiles[i]);
    }
    assert(a.tiles =~= b.tiles);
}

/// The moves that undo `walk`: the reverse of each move, last move first.
pub open spec fn undo(walk: Seq<Move>) -> Seq<Move> {
    Seq::new(walk.len(), |i: int| walk[walk.len() - 1 - i].reverse())
}

/// Legal moves can be undone: the reverse moves, last first, are legal
/// and lead back to the start.
pub proof fn lemma_undo(start: Layout, walk: Seq<Move>)
    requires
        start.valid(),
        feasible::<Move, Taquin>(start, walk),
    ensures
        feasible::<Move, Taquin>(destination::<Move, Taquin>(start, walk), undo(walk)),
        destination::<Move, Taquin>(destination::<Move, Taquin>(start, walk), undo(walk)) == start,
    decreases walk.len(),
{
    if walk.len() == 0 {
        assert(undo(walk) =~= Seq::<Move>::empty());
    } else {
        let shorter = walk.drop_last();
        let m = walk.last();
        let middle = destination::<Move, Taquin>(start, shorter);
        let end = destination::<Move, Taquin>(start, walk);
        lemma_undo(start, shorter);
        lemma_destination_valid::<Move, Taquin>(start, shorter);
        lemma_moves(middle, None);
        lemma_slide(middle, m);
        lemma_slide_reverse(middle, m);
        lemma_moves(end, None);
        let back = seq![m.reverse()];
        assert(back.drop_last() =~= Seq::<Move>::empty());
        assert(feasible::<Move, Taquin>(end, back.drop_last()));
        assert(destination::<Move, Taquin>(end, back.drop_last()) == end);
        assert(feasible::<Move, Taquin>(end, back));
        assert(destination::<Move, Taquin>(end, back) == middle);
        assert(undo(walk) =~= back + undo(shorter));
        lemma_walk_joined::<Move, Taquin>(end, back, undo(shorter));
    }
}

/// A puzzle that legal moves have led to from the solved state can be
/// solved, in no more moves than led to it; in just one if one led to it.
pub proof fn lemma_scrambled_is_solvable(size: int, scramble: Seq<Move>, moves: Seq<Move>)
    requires
        2 <= size <= 16,
        feasible::<Move, Taquin>(Layout::goal(size), scramble),
        is_shortest_solution::<Move, Taquin>(
            destination::<Move, Taquin>(Layout::goal(size), scramble),
            moves,
        ),
    ensures
        solvable::<Move, Taquin>(destination::<Move, Taquin>(Layout::goal(size), scramble)),
        moves.len() <= scramble.len(),
        scramble.len() == 1 ==> moves.len() == 1,
{
    let goal = Layout::goal(size);
    let state = destination::<Move, Taquin>(goal, scramble);
    lemma_goal(size);
    lemma_undo(goal, scramble);
    assert(destination::<Move, Taquin>(state, undo(scramble)).solved());
    if scramble.len() == 1 {
        let m = scramble.last();
        assert(scramble.drop_last() =~= Seq::<Move>::empty());
        assert(destination::<Move, Taquin>(goal, scramble.drop_last()) == goal);
        lemma_moves(goal, None);
        lemma_slide(goal, m);
        assert(state == goal.slide(m));
        if moves.len() == 0 {
            assert(destination::<Move, Taquin>(state, moves) == state);
        }
    }
}

/// Every state that legal moves lead to from the solved state can be
/// solved.
pub proof fn lemma_reachable_is_solvable(size: int, scramble: Seq<Move>)
    requires
        2 <= size <= 16,
        feasible::<Move, Taquin>(Layout::goal(size), scramble),
    ensures
        solvable::<Move, Taquin>(destination::<Move, Taquin>(Layout::goal(size), scramble)),
{
    let goal = Layout::goal(size);
    let state = destination::<Move, Taquin>(goal, scramble);
    lemma_goal(size);
    lemma_undo(goal, scramble);
    assert(destination::<Move, Taquin>(state, undo(scramble)).solved());
}

} // verus!
