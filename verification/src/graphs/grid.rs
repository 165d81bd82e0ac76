//! A rectangular grid whose edges are computed, not stored.

use vstd::prelude::*;
use itertools::Itertools;
use crate::counter::Counter;
use crate::index::{after, Index, Unique};
use crate::providers::{EdgeProvider, VertexProvider};
use crate::seqs::{except, fan, lemma_except, lemma_occurs_add};
use crate::topology::{closed, distinct, leads, occurs, reachable, within, Topology};
use crate::utils::unordered_pair::{lemma_fan_same, lemma_same_pair, pairs, unordered, UnorderedPair};

verus! {

/// The place of a cell in a grid: its row, then its column.
#[derive(Copy, Clone, Debug)]
pub struct Coords(pub usize, pub usize);

/// Whether some cell of the rows holds the identifier `id`.
pub open spec fn cell_holds<I: View>(cells: Seq<Seq<I>>, id: I::V) -> bool {
    exists|row: int, column: int|
        0 <= row < cells.len() && 0 <= column < cells[row].len() && (#[trigger] cells[row][column])@
            == id
}

/// Whether no identifier stands in two cells of the rows.
pub open spec fn cells_apart<I: View>(cells: Seq<Seq<I>>) -> bool {
    forall|r1: int, c1: int, r2: int, c2: int|
        0 <= r1 < cells.len() && 0 <= c1 < cells[r1].len() && 0 <= r2 < cells.len() && 0 <= c2
            < cells[r2].len() && (#[trigger] cells[r1][c1])@ == (#[trigger] cells[r2][c2])@ ==> r1
            == r2 && c1 == c2
}

/// What a grid holds: its size, and the identifier of each cell, row by row.
pub struct Lattice<I> {
    pub rows: nat,
    pub columns: nat,
    pub cells: Seq<Seq<I>>,
}

impl<I: View> Lattice<I> {
    /// Whether the grid has a cell in `row` and `column`.
    pub open spec fn inside(self, row: int, column: int) -> bool {
        0 <= row < self.rows && 0 <= column < self.columns
    }

    /// The cells fill the rows and columns, no identifier stands in two cells, and the cells
    /// and edges can be counted in `usize`.
    pub open spec fn shaped(self) -> bool {
        &&& self.cells.len() == self.rows
        &&& forall|row: int| 0 <= row < self.rows ==> (#[trigger] self.cells[row]).len() == self.columns
        &&& cells_apart(self.cells)
        &&& 2 * self.rows * self.columns <= usize::MAX
    }

    /// Whether the cells hold, row by row, the identifiers that a series issues from `head` on.
    pub open spec fn issued_from(self, head: I) -> bool where I: Unique {
        forall|row: int, column: int|
            self.inside(row, column) ==> (#[trigger] self.cells[row][column]) == after(
                head,
                (row * self.columns + column) as nat,
            )
    }

    /// Whether the cell in `row` and `column` holds the identifier `id`.
    pub open spec fn located(self, id: I::V, row: int, column: int) -> bool {
        self.inside(row, column) && self.cells[row][column]@ == id
    }

    /// Whether some cell holds the identifier `id`.
    pub open spec fn holds(self, id: I::V) -> bool {
        cell_holds(self.cells, id)
    }

    /// The places next to `row` and `column` that the grid has: to the right, to the left,
    /// below and above, in this order.
    pub open spec fn around(self, row: usize, column: usize) -> Seq<Coords> {
        (if self.inside(row as int, column + 1) {
            seq![Coords(row, (column + 1) as usize)]
        } else {
            Seq::empty()
        }) + (if self.inside(row as int, column - 1) {
            seq![Coords(row, (column - 1) as usize)]
        } else {
            Seq::empty()
        }) + (if self.inside(row + 1, column as int) {
            seq![Coords((row + 1) as usize, column)]
        } else {
            Seq::empty()
        }) + (if self.inside(row - 1, column as int) {
            seq![Coords((row - 1) as usize, column)]
        } else {
            Seq::empty()
        })
    }
}

/// Whether `value`, moved by `offset`, lies in `0..high`.
pub fn inside(value: usize, offset: i32, high: usize) -> (r: bool)
    ensures
        r == (0 <= value + offset < high),
{
    if offset >= 0 {
        let forward = offset as usize;
        forward <= high && value < high - forward
    } else {
        let back = (-(offset as i64)) as usize;
        value >= back && value - back < high
    }
}

/// Whether two places lie next to each other: one coordinate is the same, and the other
/// differs by one.
pub open spec fn next_to(x1: int, y1: int, x2: int, y2: int) -> bool {
    ||| x1 == x2 && (y1 - y2 == 1 || y2 - y1 == 1)
    ||| y1 == y2 && (x1 - x2 == 1 || x2 - x1 == 1)
}

/// Whether two places lie next to each other.
pub fn adjacent(x1: usize, y1: usize, x2: usize, y2: usize) -> (r: bool)
    ensures
        r == next_to(x1 as int, y1 as int, x2 as int, y2 as int),
{
    if x1 == x2 && y1 < y2 {
        y2 - y1 == 1
    } else if x1 == x2 && y1 > y2 {
        y1 - y2 == 1
    } else if y1 == y2 && x1 < x2 {
        x2 - x1 == 1
    } else if y1 == y2 && x1 > x2 {
        x1 - x2 == 1
    } else {
        false
    }
}

/// A grid of vertices in rows and columns. Each vertex is joined to the vertices beside, above
/// and below it, so it has two, three or four neighbours.
///
/// The grid stores no edges: it computes them from the places of the cells. It holds
/// identifiers only; a caller that wants a weight with each vertex or edge keeps it under the
/// identifier.
pub struct Grid<I: View = Counter> {
    rows: usize,
    columns: usize,
    grid: Vec<Vec<I>>,
}

impl<I: View> View for Grid<I> {
    type V = Lattice<I>;

    closed spec fn view(&self) -> Lattice<I> {
        Lattice {
            rows: self.rows as nat,
            columns: self.columns as nat,
            cells: Seq::new(self.grid@.len(), |row: int| self.grid@[row]@),
        }
    }
}

impl<I: View> Grid<I> {
    /// What every grid satisfies: its content is well shaped.
    #[verifier::type_invariant]
    pub open spec fn wf(&self) -> bool {
        self@.shaped()
    }
}

/// The rows that a vector of rows holds.
pub open spec fn rows_of<I>(grid: Seq<Vec<I>>) -> Seq<Seq<I>> {
    Seq::new(grid.len(), |row: int| grid[row]@)
}

/// A new identifier at the end of the last row is the one identifier that the rows gain.
pub proof fn lemma_cells_grow<I: View>(cells: Seq<Seq<I>>, id: I)
    requires
        cells.len() > 0,
        cells_apart(cells),
        !cell_holds(cells, id@),
    ensures
        cells_apart(cells.update(cells.len() - 1, cells.last().push(id))),
        forall|k: I::V| #[trigger]
            cell_holds(cells.update(cells.len() - 1, cells.last().push(id)), k) == (cell_holds(
                cells,
                k,
            ) || k == id@),
{
    let last = cells.len() - 1;
    let grown = cells.update(last, cells.last().push(id));
    assert forall|r: int, c: int| 0 <= r < grown.len() && 0 <= c < grown[r].len() && !(r == last
        && c == cells[last].len()) implies 0 <= c < cells[r].len() && (#[trigger] grown[r][c])
        == cells[r][c] by {}
    assert forall|r1: int, c1: int, r2: int, c2: int|
        0 <= r1 < grown.len() && 0 <= c1 < grown[r1].len() && 0 <= r2 < grown.len() && 0 <= c2
            < grown[r2].len() && (#[trigger] grown[r1][c1])@ == (#[trigger] grown[r2][c2])@ implies r1
        == r2 && c1 == c2 by {
        let new1 = r1 == last && c1 == cells[last].len();
        let new2 = r2 == last && c2 == cells[last].len();
        if new1 && !new2 {
            assert(cells[r2][c2]@ == id@);
        } else if new2 && !new1 {
            assert(cells[r1][c1]@ == id@);
        } else if !new1 && !new2 {
            assert(cells[r1][c1]@ == cells[r2][c2]@);
        }
    }
    assert forall|k: I::V| #[trigger] cell_holds(grown, k) == (cell_holds(cells, k) || k == id@) by {
        if cell_holds(grown, k) {
            let (r, c) = choose|r: int, c: int|
                0 <= r < grown.len() && 0 <= c < grown[r].len() && (#[trigger] grown[r][c])@ == k;
            if !(r == last && c == cells[last].len()) {
                assert(cells[r][c]@ == k);
            }
        }
        if cell_holds(cells, k) {
            let (r, c) = choose|r: int, c: int|
                0 <= r < cells.len() && 0 <= c < cells[r].len() && (#[trigger] cells[r][c])@ == k;
            assert(grown[r][c]@ == k);
        }
        if k == id@ {
            assert(grown[last][cells[last].len() as int]@ == k);
        }
    }
}

/// An empty row at the end changes nothing in what the rows hold.
pub proof fn lemma_cells_new_row<I: View>(cells: Seq<Seq<I>>)
    requires
        cells_apart(cells),
    ensures
        cells_apart(cells.push(Seq::empty())),
        forall|k: I::V| #[trigger] cell_holds(cells.push(Seq::empty()), k) == cell_holds(cells, k),
{
    let grown = cells.push(Seq::<I>::empty());
    assert forall|r: int, c: int| 0 <= r < grown.len() && 0 <= c < grown[r].len() implies r
        < cells.len() && (#[trigger] grown[r][c]) == cells[r][c] by {}
    assert forall|r1: int, c1: int, r2: int, c2: int|
        0 <= r1 < grown.len() && 0 <= c1 < grown[r1].len() && 0 <= r2 < grown.len() && 0 <= c2
            < grown[r2].len() && (#[trigger] grown[r1][c1])@ == (#[trigger] grown[r2][c2])@ implies r1
        == r2 && c1 == c2 by {
        assert(cells[r1][c1]@ == cells[r2][c2]@);
    }
    assert forall|k: I::V| #[trigger] cell_holds(grown, k) == cell_holds(cells, k) by {
        if cell_holds(grown, k) {
            let (r, c) = choose|r: int, c: int|
                0 <= r < grown.len() && 0 <= c < grown[r].len() && (#[trigger] grown[r][c])@ == k;
            assert(cells[r][c]@ == k);
        }
        if cell_holds(cells, k) {
            let (r, c) = choose|r: int, c: int|
                0 <= r < cells.len() && 0 <= c < cells[r].len() && (#[trigger] cells[r][c])@ == k;
            assert(grown[r][c]@ == k);
        }
    }
}

/// Building a grid.
impl<I: Unique + Copy> Grid<I> {
    /// A grid of `rows` by `columns` vertices, with the identifiers of a series of its own.
    pub fn new(rows: usize, columns: usize) -> (grid: Self)
        requires
            rows * columns <= I::capacity(),
            2 * rows * columns <= usize::MAX,
        ensures
            grid@.rows == rows,
            grid@.columns == columns,
            grid@.issued_from(I::origin()),
    {
        Self::with_inspector(rows, columns, |_id: I, _row: usize, _column: usize| ())
    }

    /// A grid of `rows` by `columns` vertices, with the identifiers of a series of its own.
    /// `inspector` is called for each vertex, row by row, with the identifier, the row and the
    /// column: a caller can so keep its own data with each vertex.
    pub fn with_inspector<F: FnMut(I, usize, usize)>(rows: usize, columns: usize, inspector: F) -> (grid:
        Self)
        requires
            rows * columns <= I::capacity(),
            2 * rows * columns <= usize::MAX,
            forall|id: I, row: usize, column: usize| call_requires(inspector, (id, row, column)),
        ensures
            grid@.rows == rows,
            grid@.columns == columns,
            grid@.issued_from(I::origin()),
    {
        let mut source = I::first();
        Self::with_source(rows, columns, &mut source, inspector)
    }

    /// A grid of `rows` by `columns` vertices, with the next identifiers of the series that
    /// `source` heads. The identifiers of the cells are those that the series issues meanwhile.
    pub fn with_source<F: FnMut(I, usize, usize)>(
        rows: usize,
        columns: usize,
        source: &mut I,
        mut inspector: F,
    ) -> (grid: Self)
        requires
            rows * columns <= old(source).left(),
            2 * rows * columns <= usize::MAX,
            forall|id: I, row: usize, column: usize| call_requires(inspector, (id, row, column)),
        ensures
            grid@.rows == rows,
            grid@.columns == columns,
            grid@.issued_from(*old(source)),
            *final(source) == after(*old(source), (rows * columns) as nat),
            final(source).left() == old(source).left() - rows * columns,
            forall|k: I::V| #[trigger]
                final(source).issued().contains(k) == (old(source).issued().contains(k)
                    || grid@.holds(k)),
            forall|k: I::V| #[trigger] grid@.holds(k) ==> !old(source).issued().contains(k),
    {
        let ghost issued = source.issued();
        let ghost left = source.left();
        let ghost head = *source;
        let mut grid: Vec<Vec<I>> = Vec::new();
        let mut r: usize = 0;
        proof {
            assert(rows_of(grid@) =~= Seq::<Seq<I>>::empty());
            assert(0 * columns == 0) by (nonlinear_arith);
        }
        while r < rows
            invariant
                r <= rows,
                grid@.len() == r,
                rows * columns <= left,
                *source == after(head, (r * columns) as nat),
                forall|row: int, column: int|
                    0 <= row < r && 0 <= column < columns ==> (#[trigger] grid@[row]@[column])
                        == after(head, (row * columns + column) as nat),
                forall|row: int| 0 <= row < r ==> (#[trigger] grid@[row])@.len() == columns,
                cells_apart(rows_of(grid@)),
                source.left() == left - r * columns,
                forall|k: I::V| #[trigger]
                    source.issued().contains(k) == (issued.contains(k) || cell_holds(
                        rows_of(grid@),
                        k,
                    )),
                forall|k: I::V| #[trigger] cell_holds(rows_of(grid@), k) ==> !issued.contains(k),
                forall|id: I, row: usize, column: usize| call_requires(inspector, (id, row, column)),
            decreases rows - r,
        {
            let ghost before = rows_of(grid@);
            grid.push(Vec::new());
            proof {
                lemma_cells_new_row(before);
                assert(rows_of(grid@) =~= before.push(Seq::empty()));
            }
            let mut c: usize = 0;
            while c < columns
                invariant
                    r < rows,
                    c <= columns,
                    grid@.len() == r + 1,
                    rows * columns <= left,
                    *source == after(head, (r * columns + c) as nat),
                    forall|row: int, column: int|
                        0 <= row < r && 0 <= column < columns ==> (#[trigger] grid@[row]@[column])
                            == after(head, (row * columns + column) as nat),
                    forall|column: int|
                        0 <= column < c ==> (#[trigger] grid@[r as int]@[column]) == after(
                            head,
                            (r * columns + column) as nat,
                        ),
                    forall|row: int| 0 <= row < r ==> (#[trigger] grid@[row])@.len() == columns,
                    grid@[r as int]@.len() == c,
                    cells_apart(rows_of(grid@)),
                    source.left() == left - r * columns - c,
                    forall|k: I::V| #[trigger]
                        source.issued().contains(k) == (issued.contains(k) || cell_holds(
                            rows_of(grid@),
                            k,
                        )),
                    forall|k: I::V| #[trigger]
                        cell_holds(rows_of(grid@), k) ==> !issued.contains(k),
                    forall|id: I, row: usize, column: usize|
                        call_requires(inspector, (id, row, column)),
                decreases columns - c,
            {
                proof {
                    assert((r + 1) * columns <= rows * columns) by (nonlinear_arith)
                        requires
                            r < rows,
                    ;
                    assert((r + 1) * columns == r * columns + columns) by (nonlinear_arith);
                }
                let ghost before = rows_of(grid@);
                let ghost stored = grid@;
                let id = source.generate();
                grid[r].push(id);
                proof {
                    assert(!cell_holds(before, id@));
                    lemma_cells_grow(before, id);
                    assert(rows_of(grid@) =~= before.update(before.len() - 1, before.last().push(id)));
                    assert(r * columns >= 0) by (nonlinear_arith);
                    assert forall|row: int, column: int|
                        0 <= row < r && 0 <= column < columns implies (
                    #[trigger] grid@[row]@[column]) == after(
                        head,
                        (row * columns + column) as nat,
                    ) by {
                        assert(rows_of(grid@)[row] == before[row]);
                        assert(grid@[row]@[column] == stored[row]@[column]);
                    }
                    assert forall|column: int| 0 <= column < c + 1 implies (
                    #[trigger] grid@[r as int]@[column]) == after(
                        head,
                        (r * columns + column) as nat,
                    ) by {
                        assert(rows_of(grid@)[r as int] == before[r as int].push(id));
                        if column < c {
                            assert(grid@[r as int]@[column] == stored[r as int]@[column]);
                        }
                    }
                }
                inspector(id, r, c);
                c += 1;
            }
            r += 1;
            proof {
                assert(r * columns == (r - 1) * columns + columns) by (nonlinear_arith);
            }
        }
        proof {
            assert(2 * rows * columns == 2 * (rows * columns)) by (nonlinear_arith);
        }
        let made = Grid { rows, columns, grid };
        proof {
            assert(made@.cells =~= rows_of(grid@));
            assert forall|row: int, column: int| made@.inside(row, column) implies (
            #[trigger] made@.cells[row][column]) == after(
                head,
                (row * made@.columns + column) as nat,
            ) by {
                assert(made@.cells[row][column] == grid@[row]@[column]);
            }
        }
        made
    }
}

impl<I: Unique + Copy> Grid<I> {
    /// A grid as `with_source` builds it, or `None` where the series cannot issue an identifier
    /// for each cell, or where the edges cannot be counted in `usize`. Nothing is issued then.
    pub fn try_with_source<F: FnMut(I, usize, usize)>(
        rows: usize,
        columns: usize,
        source: &mut I,
        inspector: F,
    ) -> (grid: Option<Self>)
        requires
            forall|id: I, row: usize, column: usize| call_requires(inspector, (id, row, column)),
        ensures
            grid.is_some() == (rows * columns <= old(source).left() && 2 * rows * columns
                <= usize::MAX),
            grid.is_none() ==> *final(source) == *old(source),
            grid.is_some() ==> grid.unwrap()@.rows == rows && grid.unwrap()@.columns == columns
                && grid.unwrap()@.issued_from(*old(source)),
            grid.is_some() ==> *final(source) == after(*old(source), (rows * columns) as nat)
                && final(source).left() == old(source).left() - rows * columns,
    {
        proof {
            assert(2 * rows * columns == 2 * (rows * columns)) by (nonlinear_arith);
        }
        match rows.checked_mul(columns) {
            None => None,
            Some(cells) => {
                if cells.checked_mul(2).is_none() || !source.has_room(cells) {
                    return None;
                }
                assert(2 * (rows * columns) == (rows * columns) * 2) by (nonlinear_arith);
                Some(Self::with_source(rows, columns, source, inspector))
            },
        }
    }
}

/// Looking cells up.
impl<I: Index + Copy> Grid<I> {
    /// The identifier of the vertex in `row` and `column`, if the grid has such a cell.
    pub fn at(&self, row: usize, column: usize) -> (id: Option<I>)
        ensures
            id == if self@.inside(row as int, column as int) {
                Some(self@.cells[row as int][column as int])
            } else {
                None
            },
    {
        proof {
            use_type_invariant(self);
        }
        if row < self.rows && column < self.columns {
            assert(self@.cells[row as int] == self.grid@[row as int]@);
            Some(self.grid[row][column])
        } else {
            None
        }
    }

    /// The place of the vertex `id`, if the grid holds it.
    pub fn coords_of(&self, id: I) -> (place: Option<Coords>)
        ensures
            place.is_some() == self@.holds(id@),
            match place {
                Some(Coords(row, column)) => self@.located(id@, row as int, column as int),
                None => true,
            },
    {
        proof {
            use_type_invariant(self);
        }
        let mut r: usize = 0;
        while r < self.rows
            invariant
                r <= self.rows,
                self.wf(),
                forall|row: int, column: int|
                    0 <= row < r && 0 <= column < self.columns ==> (
                    #[trigger] self@.cells[row][column])@ != id@,
            decreases self.rows - r,
        {
            let cells = &self.grid[r];
            assert(cells@ == self@.cells[r as int]);
            let mut c: usize = 0;
            while c < self.columns
                invariant
                    r < self.rows,
                    c <= self.columns,
                    self.wf(),
                    cells@ == self@.cells[r as int],
                    forall|row: int, column: int|
                        0 <= row < r && 0 <= column < self.columns ==> (
                        #[trigger] self@.cells[row][column])@ != id@,
                    forall|column: int| 0 <= column < c ==> (#[trigger] cells@[column])@ != id@,
                decreases self.columns - c,
            {
                if cells[c].same(id) {
                    assert(self@.cells[r as int][c as int]@ == id@);
                    return Some(Coords(r, c));
                }
                c += 1;
            }
            r += 1;
        }
        None
    }

    /// The places next to `row` and `column` that the grid has: to the right, to the left,
    /// below and above, in this order. There are at most four, and fewer at a border.
    pub fn neighbors_of(&self, row: usize, column: usize) -> (places: Vec<Coords>)
        ensures
            places@ == self@.around(row, column),
    {
        proof {
            use_type_invariant(self);
        }
        let mut places: Vec<Coords> = Vec::new();
        if inside(column, 1, self.columns) && inside(row, 0, self.rows) {
            places.push(Coords(row, column + 1));
        }
        if inside(column, -1, self.columns) && inside(row, 0, self.rows) {
            places.push(Coords(row, column - 1));
        }
        if inside(column, 0, self.columns) && inside(row, 1, self.rows) {
            places.push(Coords(row + 1, column));
        }
        if inside(column, 0, self.columns) && inside(row, -1, self.rows) {
            places.push(Coords(row - 1, column));
        }
        proof {
            assert(places@ =~= self@.around(row, column));
        }
        places
    }
}

impl<I: View> Lattice<I> {
    /// The identifiers of the first `n` rows, row by row.
    pub open spec fn flat_upto(self, n: nat) -> Seq<I>
        decreases n,
    {
        if n == 0 {
            Seq::empty()
        } else {
            self.flat_upto((n - 1) as nat) + self.cells[n - 1]
        }
    }

    /// All identifiers, row by row: the cell in row 0 and column 0 first, then along the row,
    /// then the next row from its first column on.
    pub open spec fn flat(self) -> Seq<I> {
        self.flat_upto(self.rows)
    }

    /// The row and column of the cell that holds `id`.
    pub open spec fn place(self, id: I::V) -> (int, int) {
        choose|place: (int, int)| #[trigger] self.located(id, place.0, place.1)
    }

    /// The identifiers of the given places.
    pub open spec fn ids_at(self, places: Seq<Coords>) -> Seq<I> {
        Seq::new(places.len(), |i: int| self.cells[places[i].0 as int][places[i].1 as int])
    }

    /// The vertices next to the vertex `id`: to the right, to the left, below and above, in
    /// this order. None where the grid does not hold `id`.
    pub open spec fn beside(self, id: I::V) -> Seq<I> {
        if self.holds(id) {
            self.ids_at(self.around(self.place(id).0 as usize, self.place(id).1 as usize))
        } else {
            Seq::empty()
        }
    }

    /// The first `n` rows together hold `n` times `columns` identifiers.
    pub proof fn lemma_flat_len(self, n: nat)
        requires
            self.shaped(),
            n <= self.rows,
        ensures
            self.flat_upto(n).len() == n * self.columns,
        decreases n,
    {
        if n > 0 {
            self.lemma_flat_len((n - 1) as nat);
            assert(self.cells[n - 1].len() == self.columns);
            assert(n * self.columns == (n - 1) * self.columns + self.columns) by (nonlinear_arith);
        } else {
            assert(0 * self.columns == 0) by (nonlinear_arith);
        }
    }

    /// The identifiers of the first `n` rows are those of the cells in these rows.
    pub proof fn lemma_flat_upto(self, n: nat, id: I::V)
        requires
            self.shaped(),
            n <= self.rows,
        ensures
            occurs(self.flat_upto(n), id) <==> exists|row: int, column: int|
                row < n && #[trigger] self.located(id, row, column),
        decreases n,
    {
        if n > 0 {
            let head = self.flat_upto((n - 1) as nat);
            let last = self.cells[n - 1];
            self.lemma_flat_upto((n - 1) as nat, id);
            lemma_occurs_add(head, last, id);
            if occurs(last, id) {
                let c = choose|c: int| 0 <= c < last.len() && (#[trigger] last[c])@ == id;
                assert(self.located(id, n - 1, c));
            }
            if exists|row: int, column: int| row < n && #[trigger] self.located(id, row, column) {
                let (row, column) = choose|row: int, column: int|
                    row < n && #[trigger] self.located(id, row, column);
                if row == n - 1 {
                    assert(last[column]@ == id);
                } else {
                    assert(row < n - 1 && self.located(id, row, column));
                }
            }
        }
    }

    /// No identifier occurs twice among those of the first `n` rows.
    pub proof fn lemma_flat_distinct(self, n: nat)
        requires
            self.shaped(),
            n <= self.rows,
        ensures
            distinct(self.flat_upto(n)),
        decreases n,
    {
        if n > 0 {
            let head = self.flat_upto((n - 1) as nat);
            let last = self.cells[n - 1];
            let all = self.flat_upto(n);
            self.lemma_flat_distinct((n - 1) as nat);
            assert forall|i: int, j: int| 0 <= i < j < all.len() implies (#[trigger] all[i])@ != (
            #[trigger] all[j])@ by {
                if j < head.len() {
                    assert(all[i] == head[i] && all[j] == head[j]);
                } else if i >= head.len() {
                    assert(all[i] == self.cells[n - 1][i - head.len()]);
                    assert(all[j] == self.cells[n - 1][j - head.len()]);
                } else {
                    assert(all[i] == head[i]);
                    assert(all[j] == self.cells[n - 1][j - head.len()]);
                    if all[i]@ == all[j]@ {
                        self.lemma_flat_upto((n - 1) as nat, head[i]@);
                        let (row, column) = choose|row: int, column: int|
                            row < n - 1 && #[trigger] self.located(head[i]@, row, column);
                        assert(self.cells[row][column]@ == self.cells[n - 1][j - head.len()]@);
                    }
                }
            }
        }
    }

    /// The identifiers of a grid are those that its cells hold, and each cell holds its own.
    pub proof fn lemma_flat(self, id: I::V)
        requires
            self.shaped(),
        ensures
            occurs(self.flat(), id) <==> self.holds(id),
            self.holds(id) ==> self.located(id, self.place(id).0, self.place(id).1),
            forall|row: int, column: int| #[trigger]
                self.located(id, row, column) ==> self.place(id) == (row, column),
    {
        self.lemma_flat_upto(self.rows, id);
        if self.holds(id) {
            let (row, column) = choose|row: int, column: int|
                0 <= row < self.cells.len() && 0 <= column < self.cells[row].len() && (
                #[trigger] self.cells[row][column])@ == id;
            assert(self.located(id, row, column));
            assert(self.located(id, (row, column).0, (row, column).1));
        }
        if exists|row: int, column: int| #[trigger] self.located(id, row, column) {
            let (row, column) = choose|row: int, column: int| #[trigger]
                self.located(id, row, column);
            assert(self.cells[row][column]@ == id);
            assert(self.located(id, (row, column).0, (row, column).1));
        }
        assert forall|row: int, column: int| #[trigger] self.located(id, row, column) implies self.place(
            id,
        ) == (row, column) by {
            assert(self.located(id, (row, column).0, (row, column).1));
            let p = self.place(id);
            assert(self.cells[p.0][p.1]@ == self.cells[row][column]@);
        }
    }
}

/// The vertices of a grid.
pub struct Vertices<'a, I: View> {
    pub grid: &'a Grid<I>,
}

impl<'a, I: Index + Copy> Topology for Vertices<'a, I> {
    type Item = I;

    open spec fn wf(&self) -> bool {
        self.grid.wf()
    }

    open spec fn items(&self) -> Seq<I> {
        self.grid@.flat()
    }

    open spec fn neighbors(&self, item: I) -> Seq<I> {
        self.grid@.beside(item@)
    }

    proof fn lemma_neighbors_of_same(&self, a: I, b: I) {
    }

    fn iter(&self) -> (all: Vec<I>) {
        self.grid.traverse_by_rows()
    }

    fn adjacent_to(&self, item: I) -> (adjacent: Option<Vec<I>>) {
        proof {
            use_type_invariant(self.grid);
            self.grid@.lemma_flat(item@);
        }
        match self.grid.coords_of(item) {
            None => None,
            Some(Coords(row, column)) => {
                let places = self.grid.neighbors_of(row, column);
                let mut adjacent: Vec<I> = Vec::new();
                let mut i: usize = 0;
                while i < places.len()
                    invariant
                        i <= places.len(),
                        self.grid.wf(),
                        places@ == self.grid@.around(row, column),
                        adjacent@ == self.grid@.ids_at(places@.take(i as int)),
                    decreases places.len() - i,
                {
                    let Coords(r, c) = places[i];
                    match self.grid.at(r, c) {
                        Some(id) => {
                            adjacent.push(id);
                        },
                        None => {
                            assert(false);
                        },
                    }
                    proof {
                        assert(adjacent@ =~= self.grid@.ids_at(places@.take(i + 1)));
                    }
                    i += 1;
                }
                proof {
                    assert(places@.take(places@.len() as int) =~= places@);
                }
                Some(adjacent)
            },
        }
    }

    fn contains(&self, item: I) -> (r: bool) {
        proof {
            use_type_invariant(self.grid);
            self.grid@.lemma_flat(item@);
        }
        self.grid.coords_of(item).is_some()
    }
}

/// Walks that only a grid offers.
impl<I: Index + Copy> Grid<I> {
    /// The vertices row by row: the vertex in row 0 and column 0 first, then along each row to
    /// its last column, then on with the next row, up to the last vertex.
    pub fn traverse_by_rows(&self) -> (visited: Vec<I>)
        ensures
            visited@ == self@.flat(),
            visited@.len() == self@.rows * self@.columns,
            distinct(visited@),
    {
        proof {
            use_type_invariant(self);
            self@.lemma_flat_len(self@.rows);
            self@.lemma_flat_distinct(self@.rows);
        }
        let mut visited: Vec<I> = Vec::new();
        if self.rows == 0 || self.columns == 0 {
            proof {
                self.lemma_flat_empty(self@.rows);
            }
            return visited;
        }
        let last_row = self.rows - 1;
        let last_col = self.columns - 1;
        let mut row: usize = 0;
        let mut col: usize = 0;
        loop
            invariant_except_break
                self.wf(),
                last_row == self.rows - 1,
                last_col == self.columns - 1,
                row <= last_row,
                col <= last_col,
                visited@ == self@.flat_upto(row as nat) + self@.cells[row as int].take(col as int),
                visited@.len() == row * self.columns + col,
            ensures
                visited@ == self@.flat(),
            decreases (self.rows - row) * self.columns - col,
        {
            match self.at(row, col) {
                Some(id) => {
                    visited.push(id);
                },
                None => {
                    assert(false);
                },
            }
            proof {
                assert(self@.cells[row as int].take(col + 1) =~= self@.cells[row as int].take(
                    col as int,
                ).push(self@.cells[row as int][col as int]));
                assert((self.rows - row) * self.columns == (self.rows - row - 1) * self.columns
                    + self.columns) by (nonlinear_arith);
                assert((self.rows - row - 1) * self.columns >= 0) by (nonlinear_arith)
                    requires
                        self.rows - row - 1 >= 0,
                ;
                assert((row + 1) * self.columns == row * self.columns + self.columns)
                    by (nonlinear_arith);
            }
            if col == last_col {
                proof {
                    assert(self@.cells[row as int].take(col + 1) =~= self@.cells[row as int]);
                    assert(self@.flat_upto((row + 1) as nat) =~= visited@);
                }
                if row == last_row {
                    break ;
                }
                row = row + 1;
                col = 0;
                proof {
                    assert(self@.cells[row as int].take(0) =~= Seq::<I>::empty());
                }
            } else {
                col = col + 1;
            }
        }
        visited
    }

    /// A grid without rows or without columns holds no identifier.
    proof fn lemma_flat_empty(&self, n: nat)
        requires
            self.wf(),
            self@.rows == 0 || self@.columns == 0,
            n <= self@.rows,
        ensures
            self@.flat_upto(n) == Seq::<I>::empty(),
        decreases n,
    {
        if n > 0 {
            self.lemma_flat_empty((n - 1) as nat);
            assert(self@.flat_upto(n) =~= Seq::<I>::empty());
        }
    }
}

impl<'a, I: Index + Copy + 'a> VertexProvider<'a, I> for Grid<I> {
    type Vertices = Vertices<'a, I>;

    open spec fn census(&self) -> Seq<I> {
        self@.flat()
    }

    /// A grid has as many vertices as cells: rows times columns.
    fn order(&self) -> (n: usize)
        ensures
            n == self@.rows * self@.columns,
    {
        proof {
            use_type_invariant(self);
            self@.lemma_flat_len(self@.rows);
            assert(self.rows * self.columns <= 2 * self.rows * self.columns) by (nonlinear_arith);
        }
        self.rows * self.columns
    }

    fn vertices(&'a self) -> (t: Vertices<'a, I>) {
        proof {
            use_type_invariant(self);
        }
        Vertices { grid: self }
    }
}

/// The pairs of a number below `n` and its successor below `n`, in rising order.
///
/// This is what `Itertools::tuple_windows` yields as pairs over the range from 0 to `n`: every
/// window of two neighbouring numbers, from (0, 1) on, and none where the range holds fewer
/// than two numbers.
#[verifier::external_body]
fn windows(n: usize) -> (steps: Vec<(usize, usize)>)
    ensures
        n == 0 ==> steps@.len() == 0,
        n > 0 ==> steps@.len() == n - 1,
        forall|i: int|
            0 <= i < steps@.len() ==> (#[trigger] steps@[i]) == (i as usize, (i + 1) as usize),
{
    (0..n).tuple_windows().collect()
}

impl<I: View> Lattice<I> {
    /// The edge between the cell in `row` and `column` and the next cell of the row.
    pub open spec fn row_edge(self, row: int, column: int) -> UnorderedPair<I> {
        UnorderedPair(self.cells[row][column], self.cells[row][column + 1])
    }

    /// The edge between the cell in `row` and `column` and the next cell of the column.
    pub open spec fn column_edge(self, row: int, column: int) -> UnorderedPair<I> {
        UnorderedPair(self.cells[row][column], self.cells[row + 1][column])
    }

    /// How many edges lie along a line of `n` cells.
    pub open spec fn gaps(n: nat) -> nat {
        if n == 0 {
            0
        } else {
            (n - 1) as nat
        }
    }

    /// The edges along `row`, from its first column on.
    pub open spec fn row_edges(self, row: int) -> Seq<UnorderedPair<I>> {
        Seq::new(Self::gaps(self.columns), |column: int| self.row_edge(row, column))
    }

    /// The edges along `column`, from its first row on.
    pub open spec fn column_edges(self, column: int) -> Seq<UnorderedPair<I>> {
        Seq::new(Self::gaps(self.rows), |row: int| self.column_edge(row, column))
    }

    /// The edges along the first `n` rows.
    pub open spec fn rows_edges_upto(self, n: nat) -> Seq<UnorderedPair<I>>
        decreases n,
    {
        if n == 0 {
            Seq::empty()
        } else {
            self.rows_edges_upto((n - 1) as nat) + self.row_edges(n - 1)
        }
    }

    /// The edges along the first `n` columns.
    pub open spec fn columns_edges_upto(self, n: nat) -> Seq<UnorderedPair<I>>
        decreases n,
    {
        if n == 0 {
            Seq::empty()
        } else {
            self.columns_edges_upto((n - 1) as nat) + self.column_edges(n - 1)
        }
    }

    /// All edges: those along the rows, row by row, then those along the columns, column by
    /// column.
    pub open spec fn edges(self) -> Seq<UnorderedPair<I>> {
        self.rows_edges_upto(self.rows) + self.columns_edges_upto(self.columns)
    }

    /// Whether the vertices `a` and `b` lie next to each other in the grid.
    pub open spec fn joined(self, a: I::V, b: I::V) -> bool {
        self.holds(a) && self.holds(b) && next_to(
            self.place(a).1,
            self.place(a).0,
            self.place(b).1,
            self.place(b).0,
        )
    }

    /// The edges from `source` to the vertices next to it, but the one to `exclude`.
    pub open spec fn spokes(self, source: I, exclude: I::V) -> Seq<(I, I)> {
        fan(source, except(self.beside(source@), exclude))
    }

    /// The edges along the first `n` rows number `n` times the gaps of a row, and they are the
    /// edges between a cell of these rows and the next cell of its row.
    pub proof fn lemma_rows_edges_upto(self, n: nat, k: Set<I::V>)
        requires
            n <= self.rows,
        ensures
            self.rows_edges_upto(n).len() == n * Self::gaps(self.columns),
            occurs(self.rows_edges_upto(n), k) <==> exists|row: int, column: int|
                0 <= row < n && 0 <= column < Self::gaps(self.columns) && (#[trigger] self.row_edge(
                    row,
                    column,
                ))@ == k,
        decreases n,
    {
        let gaps = Self::gaps(self.columns);
        if n > 0 {
            let head = self.rows_edges_upto((n - 1) as nat);
            let last = self.row_edges(n - 1);
            self.lemma_rows_edges_upto((n - 1) as nat, k);
            lemma_occurs_add(head, last, k);
            assert(n * gaps == (n - 1) * gaps + gaps) by (nonlinear_arith);
            if occurs(last, k) {
                let c = choose|c: int| 0 <= c < last.len() && (#[trigger] last[c])@ == k;
                assert(self.row_edge(n - 1, c)@ == k);
            }
            if exists|row: int, column: int|
                0 <= row < n && 0 <= column < gaps && (#[trigger] self.row_edge(row, column))@ == k {
                let (row, column) = choose|row: int, column: int|
                    0 <= row < n && 0 <= column < gaps && (#[trigger] self.row_edge(row, column))@
                        == k;
                if row == n - 1 {
                    assert(last[column]@ == k);
                } else {
                    assert(0 <= row < n - 1 && self.row_edge(row, column)@ == k);
                }
            }
        } else {
            assert(0 * gaps == 0) by (nonlinear_arith);
        }
    }

    /// The edges along the first `n` columns number `n` times the gaps of a column, and they
    /// are the edges between a cell of these columns and the next cell of its column.
    pub proof fn lemma_columns_edges_upto(self, n: nat, k: Set<I::V>)
        requires
            n <= self.columns,
        ensures
            self.columns_edges_upto(n).len() == n * Self::gaps(self.rows),
            occurs(self.columns_edges_upto(n), k) <==> exists|row: int, column: int|
                0 <= column < n && 0 <= row < Self::gaps(self.rows) && (
                #[trigger] self.column_edge(row, column))@ == k,
        decreases n,
    {
        let gaps = Self::gaps(self.rows);
        if n > 0 {
            let head = self.columns_edges_upto((n - 1) as nat);
            let last = self.column_edges(n - 1);
            self.lemma_columns_edges_upto((n - 1) as nat, k);
            lemma_occurs_add(head, last, k);
            assert(n * gaps == (n - 1) * gaps + gaps) by (nonlinear_arith);
            if occurs(last, k) {
                let r = choose|r: int| 0 <= r < last.len() && (#[trigger] last[r])@ == k;
                assert(self.column_edge(r, n - 1)@ == k);
            }
            if exists|row: int, column: int|
                0 <= column < n && 0 <= row < gaps && (#[trigger] self.column_edge(row, column))@
                    == k {
                let (row, column) = choose|row: int, column: int|
                    0 <= column < n && 0 <= row < gaps && (#[trigger] self.column_edge(
                        row,
                        column,
                    ))@ == k;
                if column == n - 1 {
                    assert(last[row]@ == k);
                } else {
                    assert(0 <= column < n - 1 && self.column_edge(row, column)@ == k);
                }
            }
        } else {
            assert(0 * gaps == 0) by (nonlinear_arith);
        }
    }

    /// A grid of `rows` by `columns` cells, none of the two zero, has
    /// `rows * (columns - 1) + columns * (rows - 1)` edges. A grid without cells has none.
    pub proof fn lemma_edges_len(self)
        ensures
            self.rows > 0 && self.columns > 0 ==> self.edges().len() == self.rows * (self.columns
                - 1) + self.columns * (self.rows - 1),
            self.rows == 0 || self.columns == 0 ==> self.edges().len() == 0,
    {
        self.lemma_rows_edges_upto(self.rows, Set::empty());
        self.lemma_columns_edges_upto(self.columns, Set::empty());
        if self.rows == 0 || self.columns == 0 {
            assert(self.rows * Self::gaps(self.columns) == 0) by (nonlinear_arith)
                requires
                    self.rows == 0 || Self::gaps(self.columns) == 0,
            ;
            assert(self.columns * Self::gaps(self.rows) == 0) by (nonlinear_arith)
                requires
                    self.columns == 0 || Self::gaps(self.rows) == 0,
            ;
        }
    }

    /// The edges of a grid are the pairs of vertices that lie next to each other.
    pub proof fn lemma_edges(self, a: I, b: I)
        requires
            self.shaped(),
        ensures
            occurs(self.edges(), UnorderedPair(a, b)@) <==> self.joined(a@, b@),
    {
        let k = UnorderedPair(a, b)@;
        let along = self.rows_edges_upto(self.rows);
        let across = self.columns_edges_upto(self.columns);
        self.lemma_rows_edges_upto(self.rows, k);
        self.lemma_columns_edges_upto(self.columns, k);
        lemma_occurs_add(along, across, k);
        self.lemma_flat(a@);
        self.lemma_flat(b@);
        if occurs(along, k) {
            let (row, column) = choose|row: int, column: int|
                0 <= row < self.rows && 0 <= column < Self::gaps(self.columns) && (
                #[trigger] self.row_edge(row, column))@ == k;
            lemma_same_pair(self.row_edge(row, column), UnorderedPair(a, b));
            assert(self.located(self.cells[row][column]@, row, column));
            assert(self.located(self.cells[row][column + 1]@, row, column + 1));
            assert(cell_holds(self.cells, self.cells[row][column]@));
            assert(cell_holds(self.cells, self.cells[row][column + 1]@));
        }
        if occurs(across, k) {
            let (row, column) = choose|row: int, column: int|
                0 <= column < self.columns && 0 <= row < Self::gaps(self.rows) && (
                #[trigger] self.column_edge(row, column))@ == k;
            lemma_same_pair(self.column_edge(row, column), UnorderedPair(a, b));
            assert(self.located(self.cells[row][column]@, row, column));
            assert(self.located(self.cells[row + 1][column]@, row + 1, column));
            assert(cell_holds(self.cells, self.cells[row][column]@));
            assert(cell_holds(self.cells, self.cells[row + 1][column]@));
        }
        if self.joined(a@, b@) {
            let pa = self.place(a@);
            let pb = self.place(b@);
            if pa.0 == pb.0 {
                let column = if pa.1 < pb.1 { pa.1 } else { pb.1 };
                lemma_same_pair(self.row_edge(pa.0, column), UnorderedPair(a, b));
                assert(self.row_edge(pa.0, column)@ == k);
            } else {
                let row = if pa.0 < pb.0 { pa.0 } else { pb.0 };
                lemma_same_pair(self.column_edge(row, pa.1), UnorderedPair(a, b));
                assert(self.column_edge(row, pa.1)@ == k);
            }
        }
    }
}

/// The places of two vertices, if the grid holds both.
pub fn edge_coords<I: Index + Copy>(grid: &Grid<I>, a: I, b: I) -> (places: Option<(Coords, Coords)>)
    ensures
        places.is_some() == (grid@.holds(a@) && grid@.holds(b@)),
        match places {
            Some((Coords(ar, ac), Coords(br, bc))) => grid@.located(a@, ar as int, ac as int)
                && grid@.located(b@, br as int, bc as int),
            None => true,
        },
{
    match grid.coords_of(a) {
        None => None,
        Some(from) => match grid.coords_of(b) {
            None => None,
            Some(to) => Some((from, to)),
        },
    }
}

/// The edges from `source` to the vertices next to it, but the one to `exclude`; `None` where
/// the grid does not hold `source`.
pub fn adjacent_vertices<I: Index + Copy>(grid: &Grid<I>, source: I, exclude: I) -> (edges: Option<
    Vec<(I, I)>,
>)
    ensures
        edges.is_some() == grid@.holds(source@),
        edges.is_some() ==> edges.unwrap()@ == grid@.spokes(source, exclude@),
{
    proof {
        use_type_invariant(grid);
        grid@.lemma_flat(source@);
    }
    match grid.coords_of(source) {
        None => None,
        Some(Coords(row, column)) => {
            let places = grid.neighbors_of(row, column);
            let mut edges: Vec<(I, I)> = Vec::new();
            let mut i: usize = 0;
            while i < places.len()
                invariant
                    i <= places.len(),
                    grid.wf(),
                    places@ == grid@.around(row, column),
                    edges@ == fan(source, except(grid@.ids_at(places@.take(i as int)), exclude@)),
                decreases places.len() - i,
            {
                let Coords(r, c) = places[i];
                proof {
                    assert(grid@.ids_at(places@.take(i + 1)).drop_last() =~= grid@.ids_at(
                        places@.take(i as int),
                    ));
                }
                match grid.at(r, c) {
                    Some(target) => {
                        if !target.same(exclude) {
                            edges.push((source, target));
                        }
                        proof {
                            assert(grid@.ids_at(places@.take(i + 1)).last() == target);
                            assert(edges@ =~= fan(
                                source,
                                except(grid@.ids_at(places@.take(i + 1)), exclude@),
                            ));
                        }
                    },
                    None => {
                        assert(false);
                    },
                }
                i += 1;
            }
            proof {
                assert(places@.take(places@.len() as int) =~= places@);
            }
            Some(edges)
        },
    }
}

/// The edges of a grid, as unordered pairs of vertices that lie next to each other. Next to an
/// edge lie the other edges at its two ends.
pub struct Edges<'a, I: View> {
    pub grid: &'a Grid<I>,
}

impl<'a, I: Index + Copy> Topology for Edges<'a, I> {
    type Item = UnorderedPair<I>;

    open spec fn wf(&self) -> bool {
        self.grid.wf()
    }

    open spec fn items(&self) -> Seq<UnorderedPair<I>> {
        self.grid@.edges()
    }

    open spec fn neighbors(&self, item: UnorderedPair<I>) -> Seq<UnorderedPair<I>> {
        pairs(self.grid@.spokes(item.0, item.1@)) + pairs(self.grid@.spokes(item.1, item.0@))
    }

    proof fn lemma_neighbors_of_same(&self, a: UnorderedPair<I>, b: UnorderedPair<I>) {
        let m = self.grid@;
        lemma_same_pair(a, b);
        assert forall|k: Set<I::V>|
            occurs(self.neighbors(a), k) <==> occurs(self.neighbors(b), k) by {
            lemma_occurs_add(pairs(m.spokes(a.0, a.1@)), pairs(m.spokes(a.1, a.0@)), k);
            lemma_occurs_add(pairs(m.spokes(b.0, b.1@)), pairs(m.spokes(b.1, b.0@)), k);
            if a.0@ == b.0@ && a.1@ == b.1@ {
                lemma_fan_same(a.0, b.0, except(m.beside(a.0@), a.1@), k);
                lemma_fan_same(a.1, b.1, except(m.beside(a.1@), a.0@), k);
            } else {
                lemma_fan_same(a.0, b.1, except(m.beside(a.0@), a.1@), k);
                lemma_fan_same(a.1, b.0, except(m.beside(a.1@), a.0@), k);
            }
        }
    }

    fn iter(&self) -> (all: Vec<UnorderedPair<I>>) {
        proof {
            use_type_invariant(self.grid);
        }
        let grid = &self.grid.grid;
        let mut all: Vec<UnorderedPair<I>> = Vec::new();
        let mut row: usize = 0;
        while row < self.grid.rows
            invariant
                row <= self.grid.rows,
                self.grid.wf(),
                grid == &self.grid.grid,
                all@ == self.grid@.rows_edges_upto(row as nat),
            decreases self.grid.rows - row,
        {
            let steps = windows(self.grid.columns);
            let cells = &grid[row];
            assert(cells@ == self.grid@.cells[row as int]);
            let mut i: usize = 0;
            while i < steps.len()
                invariant
                    i <= steps.len(),
                    row < self.grid.rows,
                    self.grid.wf(),
                    cells@ == self.grid@.cells[row as int],
                    steps@.len() == Lattice::<I>::gaps(self.grid@.columns),
                    forall|j: int|
                        0 <= j < steps@.len() ==> (#[trigger] steps@[j]) == (
                            j as usize,
                            (j + 1) as usize,
                        ),
                    all@ == self.grid@.rows_edges_upto(row as nat) + self.grid@.row_edges(
                        row as int,
                    ).take(i as int),
                decreases steps.len() - i,
            {
                let (a, b) = steps[i];
                all.push(UnorderedPair(cells[a], cells[b]));
                proof {
                    let along = self.grid@.row_edges(row as int);
                    assert(along.take(i + 1) =~= along.take(i as int).push(along[i as int]));
                }
                i += 1;
            }
            proof {
                let along = self.grid@.row_edges(row as int);
                assert(along.take(along.len() as int) =~= along);
            }
            row += 1;
        }
        let mut column: usize = 0;
        while column < self.grid.columns
            invariant
                column <= self.grid.columns,
                self.grid.wf(),
                grid == &self.grid.grid,
                all@ == self.grid@.rows_edges_upto(self.grid@.rows) + self.grid@.columns_edges_upto(
                    column as nat,
                ),
            decreases self.grid.columns - column,
        {
            let steps = windows(self.grid.rows);
            let mut i: usize = 0;
            while i < steps.len()
                invariant
                    i <= steps.len(),
                    column < self.grid.columns,
                    self.grid.wf(),
                    grid == &self.grid.grid,
                    steps@.len() == Lattice::<I>::gaps(self.grid@.rows),
                    forall|j: int|
                        0 <= j < steps@.len() ==> (#[trigger] steps@[j]) == (
                            j as usize,
                            (j + 1) as usize,
                        ),
                    all@ == self.grid@.rows_edges_upto(self.grid@.rows)
                        + self.grid@.columns_edges_upto(column as nat)
                        + self.grid@.column_edges(column as int).take(i as int),
                decreases steps.len() - i,
            {
                let (a, b) = steps[i];
                assert(grid@[a as int]@ == self.grid@.cells[a as int]);
                assert(grid@[b as int]@ == self.grid@.cells[b as int]);
                all.push(UnorderedPair(grid[a][column], grid[b][column]));
                proof {
                    let across = self.grid@.column_edges(column as int);
                    assert(across.take(i + 1) =~= across.take(i as int).push(across[i as int]));
                    assert(all@ =~= self.grid@.rows_edges_upto(self.grid@.rows)
                        + self.grid@.columns_edges_upto(column as nat) + across.take(i + 1));
                }
                i += 1;
            }
            proof {
                let across = self.grid@.column_edges(column as int);
                assert(across.take(across.len() as int) =~= across);
                assert(all@ =~= self.grid@.rows_edges_upto(self.grid@.rows)
                    + self.grid@.columns_edges_upto((column + 1) as nat));
            }
            column += 1;
        }
        all
    }

    fn adjacent_to(&self, item: UnorderedPair<I>) -> (adjacent: Option<Vec<UnorderedPair<I>>>) {
        if !self.contains(item) {
            return None;
        }
        let UnorderedPair(a, b) = item;
        proof {
            self.grid@.lemma_edges(a, b);
        }
        let a_edges = match adjacent_vertices(self.grid, a, b) {
            Some(edges) => edges,
            None => Vec::new(),
        };
        let b_edges = match adjacent_vertices(self.grid, b, a) {
            Some(edges) => edges,
            None => Vec::new(),
        };
        let mut adjacent = unordered(&a_edges);
        let mut others = unordered(&b_edges);
        adjacent.append(&mut others);
        Some(adjacent)
    }

    fn contains(&self, item: UnorderedPair<I>) -> (r: bool) {
        let UnorderedPair(a, b) = item;
        proof {
            use_type_invariant(self.grid);
            self.grid@.lemma_edges(a, b);
            self.grid@.lemma_flat(a@);
            self.grid@.lemma_flat(b@);
        }
        match edge_coords(self.grid, a, b) {
            Some((from, to)) => adjacent(from.1, from.0, to.1, to.0),
            None => false,
        }
    }
}

impl<'a, I: Index + Copy + 'a> EdgeProvider<'a, I> for Grid<I> {
    type Edge = UnorderedPair<I>;

    type Edges = Edges<'a, I>;

    open spec fn edge_list(&self) -> Seq<UnorderedPair<I>> {
        self@.edges()
    }

    open spec fn edge_count(&self) -> nat {
        self@.edges().len()
    }

    /// A grid of `rows` by `columns` cells, none of the two zero, has
    /// `rows * (columns - 1) + columns * (rows - 1)` edges. A grid without cells has none.
    fn size(&self) -> (n: usize)
        ensures
            self@.rows > 0 && self@.columns > 0 ==> n == self@.rows * (self@.columns - 1)
                + self@.columns * (self@.rows - 1),
            self@.rows == 0 || self@.columns == 0 ==> n == 0,
    {
        proof {
            use_type_invariant(self);
            self@.lemma_edges_len();
        }
        if self.rows == 0 || self.columns == 0 {
            return 0;
        }
        proof {
            let r = self.rows as int;
            let c = self.columns as int;
            assert(r * (c - 1) + c * (r - 1) <= 2 * r * c && r * (c - 1) >= 0 && c * (r - 1) >= 0)
                by (nonlinear_arith)
                requires
                    r >= 1,
                    c >= 1,
            ;
        }
        self.rows * (self.columns - 1) + self.columns * (self.rows - 1)
    }

    fn edges(&'a self) -> (t: Edges<'a, I>) {
        proof {
            use_type_invariant(self);
        }
        Edges { grid: self }
    }
}

impl<I: View> Lattice<I> {
    /// A grid with a cell has no more rows and no more columns than `usize` counts.
    pub proof fn lemma_bounds(self)
        requires
            self.shaped(),
            self.rows > 0,
            self.columns > 0,
        ensures
            self.rows <= usize::MAX,
            self.columns <= usize::MAX,
    {
        assert(self.rows <= 2 * self.rows * self.columns && self.columns <= 2 * self.rows
            * self.columns) by (nonlinear_arith)
            requires
                self.rows > 0,
                self.columns > 0,
        ;
    }

    /// The places around a cell are cells of the grid, next to that cell.
    pub proof fn lemma_around(self, row: usize, column: usize, i: int)
        requires
            self.shaped(),
            0 <= i < self.around(row, column).len(),
        ensures
            self.inside(self.around(row, column)[i].0 as int, self.around(row, column)[i].1 as int),
            next_to(
                column as int,
                row as int,
                self.around(row, column)[i].1 as int,
                self.around(row, column)[i].0 as int,
            ),
    {
        let right = if self.inside(row as int, column + 1) {
            seq![Coords(row, (column + 1) as usize)]
        } else {
            Seq::empty()
        };
        let left = if self.inside(row as int, column - 1) {
            seq![Coords(row, (column - 1) as usize)]
        } else {
            Seq::empty()
        };
        let below = if self.inside(row + 1, column as int) {
            seq![Coords((row + 1) as usize, column)]
        } else {
            Seq::empty()
        };
        let above = if self.inside(row - 1, column as int) {
            seq![Coords((row - 1) as usize, column)]
        } else {
            Seq::empty()
        };
        assert(self.around(row, column) == right + left + below + above);
        if self.rows > 0 && self.columns > 0 {
            self.lemma_bounds();
        }
        let all = right + left + below + above;
        if i < right.len() {
            assert(all[i] == right[i]);
        } else if i < right.len() + left.len() {
            assert(all[i] == left[i - right.len()]);
        } else if i < right.len() + left.len() + below.len() {
            assert(all[i] == below[i - right.len() - left.len()]);
        } else {
            assert(all[i] == above[i - right.len() - left.len() - below.len()]);
        }
    }

    /// The vertices next to a vertex are vertices of the grid, joined to it.
    pub proof fn lemma_beside(self, id: I::V, i: int)
        requires
            self.shaped(),
            0 <= i < self.beside(id).len(),
        ensures
            self.holds(self.beside(id)[i]@),
            self.joined(id, self.beside(id)[i]@),
    {
        self.lemma_flat(id);
        let p = self.place(id);
        self.lemma_bounds();
        let places = self.around(p.0 as usize, p.1 as usize);
        self.lemma_around(p.0 as usize, p.1 as usize, i);
        let q = places[i];
        let other = self.cells[q.0 as int][q.1 as int];
        assert(self.beside(id)[i] == other);
        assert(self.located(other@, q.0 as int, q.1 as int));
        self.lemma_flat(other@);
    }
}

impl<'a, I: Index + Copy> Vertices<'a, I> {
    /// No step leads out of a grid: the vertices next to a vertex are vertices of the grid.
    pub proof fn lemma_closed(&self)
        requires
            self.wf(),
        ensures
            closed(self),
    {
        let m = self.grid@;
        assert forall|a: I, k: I::V| #[trigger] leads(self, a, k) implies occurs(self.items(), k) by {
            let near = m.beside(a@);
            let i = choose|i: int| 0 <= i < near.len() && (#[trigger] near[i])@ == k;
            m.lemma_beside(a@, i);
            m.lemma_flat(k);
        }
    }
}

impl<'a, I: Index + Copy> Edges<'a, I> {
    /// No step leads out of the edges of a grid: what lies next to an edge is an edge.
    pub proof fn lemma_closed(&self)
        requires
            self.wf(),
        ensures
            closed(self),
    {
        let m = self.grid@;
        assert forall|a: UnorderedPair<I>, k: Set<I::V>| #[trigger] leads(self, a, k) implies occurs(
            self.items(),
            k,
        ) by {
            let left = pairs(m.spokes(a.0, a.1@));
            let right = pairs(m.spokes(a.1, a.0@));
            lemma_occurs_add(left, right, k);
            if occurs(left, k) {
                m.lemma_spoke(a.0, a.1@, k);
            } else {
                m.lemma_spoke(a.1, a.0@, k);
            }
        }
    }
}

impl<I: View> Lattice<I> {
    /// An edge from a vertex to one next to it is an edge of the grid.
    pub proof fn lemma_spoke(self, source: I, exclude: I::V, k: Set<I::V>)
        requires
            self.shaped(),
            occurs(pairs(self.spokes(source, exclude)), k),
        ensures
            occurs(self.edges(), k),
    {
        let kept = except(self.beside(source@), exclude);
        let out = pairs(self.spokes(source, exclude));
        let i = choose|i: int| 0 <= i < out.len() && (#[trigger] out[i])@ == k;
        let target = kept[i];
        assert(out[i] == UnorderedPair(source, target));
        lemma_except(self.beside(source@), exclude, target@);
        let near = self.beside(source@);
        let j = choose|j: int| 0 <= j < near.len() && (#[trigger] near[j])@ == target@;
        self.lemma_beside(source@, j);
        self.lemma_edges(source, target);
    }
}

impl<I: View> Lattice<I> {
    /// The places around a cell hold every cell of the grid that lies next to it.
    pub proof fn lemma_around_holds(self, row: usize, column: usize, r: int, c: int)
        requires
            self.shaped(),
            self.inside(r, c),
            next_to(column as int, row as int, c, r),
        ensures
            exists|i: int|
                0 <= i < self.around(row, column).len() && (#[trigger] self.around(
                    row,
                    column,
                )[i]) == Coords(r as usize, c as usize),
    {
        self.lemma_bounds();
        let right = if self.inside(row as int, column + 1) {
            seq![Coords(row, (column + 1) as usize)]
        } else {
            Seq::empty()
        };
        let left = if self.inside(row as int, column - 1) {
            seq![Coords(row, (column - 1) as usize)]
        } else {
            Seq::empty()
        };
        let below = if self.inside(row + 1, column as int) {
            seq![Coords((row + 1) as usize, column)]
        } else {
            Seq::empty()
        };
        let above = if self.inside(row - 1, column as int) {
            seq![Coords((row - 1) as usize, column)]
        } else {
            Seq::empty()
        };
        let all = right + left + below + above;
        assert(self.around(row, column) == all);
        let wanted = Coords(r as usize, c as usize);
        if r == row && c == column + 1 {
            assert(all[0] == wanted);
        } else if r == row && c == column - 1 {
            assert(all[right.len() as int] == wanted);
        } else if r == row + 1 {
            assert(all[(right.len() + left.len()) as int] == wanted);
        } else {
            assert(all[(right.len() + left.len() + below.len()) as int] == wanted);
        }
    }
}

impl<'a, I: Index + Copy> Vertices<'a, I> {
    /// Steps lead from the cell in `r0` and `c0` to every cell of the grid: to the cell in
    /// `row` and `column` within as many hops as the two are rows and columns apart.
    pub proof fn lemma_reach(&self, r0: int, c0: int, row: int, column: int)
        requires
            self.wf(),
            self.grid@.inside(r0, c0),
            self.grid@.inside(row, column),
        ensures
            within(
                self,
                self.grid@.cells[r0][c0]@,
                self.grid@.cells[row][column]@,
                (vstd::math::abs(row - r0) + vstd::math::abs(column - c0)) as nat,
            ),
        decreases vstd::math::abs(row - r0) + vstd::math::abs(column - c0),
    {
        let m = self.grid@;
        let hops = vstd::math::abs(row - r0) + vstd::math::abs(column - c0);
        if hops > 0 {
            let r = if row > r0 {
                row - 1
            } else if row < r0 {
                row + 1
            } else {
                row
            };
            let c = if row != r0 {
                column
            } else if column > c0 {
                column - 1
            } else {
                column + 1
            };
            self.lemma_reach(r0, c0, r, c);
            m.lemma_bounds();
            let via = m.cells[r][c];
            let target = m.cells[row][column];
            assert(m.located(via@, r, c));
            m.lemma_flat(via@);
            m.lemma_around_holds(r as usize, c as usize, row, column);
            let places = m.around(r as usize, c as usize);
            let i = choose|i: int|
                0 <= i < places.len() && (#[trigger] places[i]) == Coords(
                    row as usize,
                    column as usize,
                );
            assert(m.beside(via@)[i] == target);
            assert(leads(self, via, target@));
            assert(vstd::math::abs(r - r0) + vstd::math::abs(c - c0) == hops - 1);
        }
    }

    /// A grid is connected: steps lead from every vertex of the grid to every other.
    pub proof fn lemma_connected(&self, from: I::V, to: I::V)
        requires
            self.wf(),
            occurs(self.items(), from),
            occurs(self.items(), to),
        ensures
            reachable(self, from, to),
    {
        let m = self.grid@;
        m.lemma_flat(from);
        m.lemma_flat(to);
        let p = m.place(from);
        let q = m.place(to);
        self.lemma_reach(p.0, p.1, q.0, q.1);
    }
}

} // verus!
