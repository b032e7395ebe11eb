//! A square grid stored in row-major order.
use vstd::prelude::*;

verus! {

/// The number of a row, counted from 0 at the top.
pub type Row = u8;

/// The number of a column, counted from 0 at the left.
pub type Column = u8;

/// The side length of a grid.
pub type Size = u8;

/// A cell of a grid, by row and column.
#[derive(Clone, Copy, Debug, PartialEq, Eq, Structural)]
pub struct Position {
    pub row: Row,
    pub column: Column,
}

impl Position {
    /// The cell in the given row and column.
    pub fn new(row: Row, column: Column) -> (p: Position)
        ensures
            p == (Position { row, column }),
    {
        Position { row, column }
    }

    /// The row of the cell.
    pub fn row(&self) -> (r: Row)
        ensures
            r == self.row,
    {
        self.row
    }

    /// The column of the cell.
    pub fn column(&self) -> (c: Column)
        ensures
            c == self.column,
    {
        self.column
    }

    /// Whether the position lies on a grid of side `size`.
    pub open spec fn within(self, size: int) -> bool {
        self.row < size && self.column < size
    }

    /// The row-major index of the position on a grid of side `size`.
    pub open spec fn index(self, size: int) -> int {
        self.row * size + self.column
    }
}

/// The position of the row-major index `index` on a grid of side `size`.
pub open spec fn position_of(size: int, index: int) -> Position {
    Position { row: (index / size) as u8, column: (index % size) as u8 }
}

/// An in-range index splits into a row and a column below `size`, and
/// `Position::index` brings it back.
pub proof fn lemma_position_of(size: int, index: int)
    requires
        0 < size <= 255,
        0 <= index < size * size,
    ensures
        position_of(size, index).within(size),
        position_of(size, index).row == index / size,
        position_of(size, index).column == index % size,
        position_of(size, index).index(size) == index,
{
    assert(0 <= index / size < size && 0 <= index % size < size && index == (index / size) * size
        + index % size) by (nonlinear_arith)
        requires
            0 < size,
            0 <= index < size * size,
    ;
}

/// A position on the grid has an in-range index, and `position_of` brings
/// the position back.
pub proof fn lemma_index_of(size: int, p: Position)
    requires
        0 < size <= 255,
        p.within(size),
    ensures
        0 <= p.index(size) < size * size,
        position_of(size, p.index(size)) == p,
{
    let r = p.row as int;
    let c = p.column as int;
    assert(0 <= r * size + c < size * size && (r * size + c) / size == r && (r * size + c) % size
        == c) by (nonlinear_arith)
        requires
            0 < size,
            0 <= r < size,
            0 <= c < size,
    ;
}

/// Why a grid could not be built.
#[derive(Clone, Copy, Debug, PartialEq, Eq, Structural)]
pub enum GridError {
    /// The content does not hold `size * size` elements.
    ContentLength,
}

/// A square of `size * size` elements, row after row.
#[derive(Debug, PartialEq, Eq, Hash)]
pub struct Grid<T> {
    size: Size,
    content: Vec<T>,
}

impl<T> View for Grid<T> {
    type V = Seq<T>;

    /// The elements in row-major order.
    closed spec fn view(&self) -> Seq<T> {
        self.content@
    }
}

impl<T> Grid<T> {
    /// The side length.
    pub closed spec fn side(&self) -> int {
        self.size as int
    }

    /// The invariant: the grid holds `side * side` elements.
    pub open spec fn wf(&self) -> bool {
        self@.len() == self.side() * self.side()
    }

    /// Builds a grid from its side length and its elements.
    pub fn new(size: Size, content: Vec<T>) -> (r: Result<Grid<T>, GridError>)
        ensures
            content@.len() == size * size <==> r is Ok,
            r matches Ok(g) ==> g.wf() && g.side() == size && g@ == content@,
            r matches Err(e) ==> e == GridError::ContentLength,
    {
        let side: usize = size as usize;
        assert(side * side <= 255 * 255) by (nonlinear_arith)
            requires
                side <= 255,
        ;
        if content.len() != side * side {
            return Err(GridError::ContentLength);
        }
        Ok(Grid { size, content })
    }

    /// The side length.
    pub fn size(&self) -> (s: Size)
        ensures
            s == self.side(),
    {
        self.size
    }

    /// The number of elements.
    pub fn len(&self) -> (n: usize)
        requires
            self.wf(),
        ensures
            n == self@.len(),
            n == self.side() * self.side(),
    {
        self.content.len()
    }

    /// The position of a linear index, or `None` past the last element.
    pub fn index_to_position(&self, index: usize) -> (r: Option<Position>)
        requires
            self.wf(),
        ensures
            r == if index < self@.len() {
                Some(position_of(self.side(), index as int))
            } else {
                None
            },
    {
        if index >= self.content.len() {
            return None;
        }
        let side: usize = self.size as usize;
        proof {
            assert(side > 0) by (nonlinear_arith)
                requires
                    index < side * side,
            ;
            lemma_position_of(side as int, index as int);
        }
        let row: usize = index / side;
        let column: usize = index % side;
        Some(Position::new(row as u8, column as u8))
    }

    /// The linear index of a position, or `None` outside the grid.
    pub fn position_to_index(&self, position: &Position) -> (r: Option<usize>)
        requires
            self.wf(),
        ensures
            r == if position.within(self.side()) {
                Some(position.index(self.side()) as usize)
            } else {
                None
            },
            r matches Some(i) ==> i == position.index(self.side()) && i < self@.len(),
    {
        let row: u8 = position.row();
        let column: u8 = position.column();
        if row < self.size && column < self.size {
            let side: usize = self.size as usize;
            proof {
                lemma_index_of(side as int, *position);
                assert(row * side <= 255 * 255) by (nonlinear_arith)
                    requires
                        row <= 255,
                        side <= 255,
                ;
            }
            Some(row as usize * side + column as usize)
        } else {
            None
        }
    }

    /// The element at a position, or `None` outside the grid.
    pub fn get(&self, position: &Position) -> (r: Option<&T>)
        requires
            self.wf(),
        ensures
            r == if position.within(self.side()) {
                Some(&self@[position.index(self.side())])
            } else {
                None
            },
    {
        match self.position_to_index(position) {
            Some(index) => Some(&self.content[index]),
            None => None,
        }
    }

    /// Iterates over the elements in row-major order.
    pub fn iter(&self) -> (it: core::slice::Iter<'_, T>)
        ensures
            vstd::std_specs::iter::IteratorSpec::remaining(&it) == self@.as_ref(),
            vstd::std_specs::iter::IteratorSpec::decrease(&it) is Some,
            vstd::std_specs::iter::IteratorSpec::initial_value_relation(&it, &it),
    {
        broadcast use vstd::std_specs::slice::axiom_spec_slice_iter;

        self.content.iter()
    }

    /// The position of the first element, in row-major order, that the
    /// predicate accepts, or `None` if it accepts none.
    pub fn find<P: Fn(&T) -> bool>(&self, predicate: P) -> (r: Option<Position>)
        requires
            self.wf(),
            forall|i: int| 0 <= i < self@.len() ==> call_requires(predicate, (&#[trigger] self@[i],)),
        ensures
            match r {
                Some(p) => {
                    &&& p.within(self.side())
                    &&& p == position_of(self.side(), p.index(self.side()))
                    &&& call_ensures(predicate, (&self@[p.index(self.side())],), true)
                    &&& forall|j: int|
                        0 <= j < p.index(self.side()) ==> call_ensures(
                            predicate,
                            (&#[trigger] self@[j],),
                            false,
                        )
                },
                None => forall|j: int|
                    0 <= j < self@.len() ==> call_ensures(predicate, (&#[trigger] self@[j],), false),
            },
    {
        let mut index: usize = 0;
        while index < self.content.len()
            invariant
                self.wf(),
                index <= self@.len(),
                forall|i: int|
                    0 <= i < self@.len() ==> call_requires(predicate, (&#[trigger] self@[i],)),
                forall|j: int|
                    0 <= j < index ==> call_ensures(predicate, (&#[trigger] self@[j],), false),
            decreases self@.len() - index,
        {
            if predicate(&self.content[index]) {
                proof {
                    assert(self.side() > 0) by (nonlinear_arith)
                        requires
                            index < self.side() * self.side(),
                    ;
                    lemma_position_of(self.side(), index as int);
                }
                return self.index_to_position(index);
            }
            index += 1;
        }
        None
    }

    /// Exchanges the elements at two positions. Nothing changes if either
    /// position lies outside the grid.
    pub fn swap(&mut self, position1: &Position, position2: &Position)
        requires
            old(self).wf(),
        ensures
            final(self).wf(),
            final(self).side() == old(self).side(),
            final(self)@ == if position1.within(old(self).side()) && position2.within(
                old(self).side(),
            ) {
                swapped(
                    old(self)@,
                    position1.index(old(self).side()),
                    position2.index(old(self).side()),
                )
            } else {
                old(self)@
            },
    {
        if let Some(index1) = self.position_to_index(position1) {
            if let Some(index2) = self.position_to_index(position2) {
                if index1 < index2 {
                    swap_apart(&mut self.content, index1, index2);
                } else if index2 < index1 {
                    swap_apart(&mut self.content, index2, index1);
                    assert(self@ =~= swapped(old(self)@, index1 as int, index2 as int));
                } else {
                    assert(self@ =~= swapped(old(self)@, index1 as int, index2 as int));
                }
            }
        }
    }
}

impl<T: Clone> Clone for Grid<T> {
    /// A grid of the same side whose elements are clones of this one's.
    fn clone(&self) -> (r: Self)
        ensures
            r.side() == self.side(),
            r@.len() == self@.len(),
            forall|i: int| 0 <= i < self@.len() ==> cloned::<T>(#[trigger] self@[i], r@[i]),
    {
        Grid { size: self.size, content: self.content.clone() }
    }
}

/// `s` with the elements at `i` and `j` exchanged.
pub open spec fn swapped<T>(s: Seq<T>, i: int, j: int) -> Seq<T> {
    s.update(i, s[j]).update(j, s[i])
}

/// Exchanges two elements of a vector, the first before the second.
fn swap_apart<T>(content: &mut Vec<T>, low: usize, high: usize)
    requires
        low < high < old(content)@.len(),
    ensures
        final(content)@ == swapped(old(content)@, low as int, high as int),
{
    let (head, tail) = content.as_mut_slice().split_at_mut(high);
    let (_, middle) = head.split_at_mut(low);
    match (middle.first_mut(), tail.first_mut()) {
        (Some(a), Some(b)) => {
            core::mem::swap(a, b);
        },
        _ => {},
    }
    assert(content@ =~= swapped(old(content)@, low as int, high as int));
}

} // verus!
