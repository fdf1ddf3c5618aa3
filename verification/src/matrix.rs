//! Matrices of double-precision numbers.

use vstd::prelude::*;
use crate::float::Double;

verus! {

/// What a matrix holds: its cells row by row.
pub ghost struct Grid {
    pub height: nat,
    pub width: nat,
    pub cells: Seq<Double>,
}

impl Grid {
    /// The cell in row `i`, column `j`.
    pub open spec fn at(self, i: int, j: int) -> Double {
        self.cells[i * self.width + j]
    }

    /// The grid whose cell `(i, j)` is `f(i, j)`.
    pub open spec fn tabulate(
        height: nat,
        width: nat,
        f: spec_fn(int, int) -> Double,
    ) -> Grid {
        Grid {
            height,
            width,
            cells: Seq::new(height * width, |t: int| f(t / width as int, t % width as int)),
        }
    }

    /// The cells agree with `f`.
    pub open spec fn agrees(self, f: spec_fn(int, int) -> Double) -> bool {
        forall|i: int, j: int|
            0 <= i < self.height && 0 <= j < self.width ==> #[trigger] self.at(i, j) == f(i, j)
    }
}

/// A grid is determined by its shape and its cells.
pub proof fn lemma_tabulated(g: Grid, f: spec_fn(int, int) -> Double)
    requires
        g.cells.len() == g.height * g.width,
        g.agrees(f),
    ensures
        g == Grid::tabulate(g.height, g.width, f),
{
    let other = Grid::tabulate(g.height, g.width, f);
    assert forall|t: int| 0 <= t < g.cells.len() implies g.cells[t] == other.cells[t] by {
        lemma_cell_place(g.height, g.width, t);
        assert(g.at(t / g.width as int, t % g.width as int) == f(
            t / g.width as int,
            t % g.width as int,
        ));
    }
    assert(g.cells =~= other.cells);
}

/// Row and column of the cell at a position.
proof fn lemma_cell_place(height: nat, width: nat, t: int)
    requires
        0 <= t < height * width,
    ensures
        width > 0,
        0 <= t / width as int,
        t / (width as int) < height,
        0 <= t % width as int,
        t % (width as int) < width,
        t == (t / width as int) * width + t % width as int,
{
    assert(width > 0) by (nonlinear_arith)
        requires
            0 < height * width,
    ;
    vstd::arithmetic::div_mod::lemma_fundamental_div_mod(t, width as int);
    let q = t / width as int;
    let w = width as int;
    assert(w * q == q * w) by (nonlinear_arith);
    assert(0 <= q < height) by (nonlinear_arith)
        requires
            0 <= t < height * width,
            t == q * width + t % width as int,
            0 <= t % width as int,
            t % (width as int) < width,
    ;
}

/// A matrix, stored row by row.
#[derive(Debug)]
pub struct DoubleMatrix {
    rows: usize,
    columns: usize,
    cells: Vec<Double>,
}

impl View for DoubleMatrix {
    type V = Grid;

    open spec fn view(&self) -> Grid {
        Grid { height: self.height(), width: self.width(), cells: self.row_major() }
    }
}

impl DoubleMatrix {
    #[verifier::type_invariant]
    spec fn well_formed(self) -> bool {
        self.cells@.len() == self.rows * self.columns
    }

    pub closed spec fn height(&self) -> nat {
        self.rows as nat
    }

    pub closed spec fn width(&self) -> nat {
        self.columns as nat
    }

    /// The cells, row by row.
    pub closed spec fn row_major(&self) -> Seq<Double> {
        self.cells@
    }

    /// A matrix from its cells, row by row.
    pub fn from_row_slice(rows: usize, columns: usize, cells: &[Double]) -> (r: DoubleMatrix)
        requires
            cells.len() == rows * columns,
        ensures
            r.height() == rows,
            r.width() == columns,
            r.row_major() == cells@,
    {
        let mut copy: Vec<Double> = Vec::with_capacity(cells.len());
        while copy.len() < cells.len()
            invariant
                copy.len() <= cells.len(),
                forall|i: int| 0 <= i < copy.len() ==> copy@[i] == #[trigger] cells@[i],
            decreases cells.len() - copy.len(),
        {
            copy.push(cells[copy.len()]);
        }
        proof {
            assert(copy@ =~= cells@);
        }
        DoubleMatrix { rows, columns, cells: copy }
    }

    /// The cell in row `i`, column `j`.
    pub open spec fn at(&self, i: int, j: int) -> Double {
        self.row_major()[i * self.width() + j]
    }

    /// The matrix has a cell `(i, j)`.
    pub open spec fn has(&self, i: int, j: int) -> bool {
        0 <= i < self.height() && 0 <= j < self.width()
    }

    /// A matrix that owns its cells, row by row.
    pub fn from_row_vec(rows: usize, columns: usize, cells: Vec<Double>) -> (r: DoubleMatrix)
        requires
            cells.len() == rows * columns,
        ensures
            r.height() == rows,
            r.width() == columns,
            r.row_major() == cells@,
    {
        DoubleMatrix { rows, columns, cells }
    }

    /// The matrix whose cell `(i, j)` is `f(i, j)`.
    pub fn from_fn<F: Fn(usize, usize) -> Double>(rows: usize, columns: usize, f: F) -> (r:
        DoubleMatrix)
        requires
            rows * columns <= usize::MAX,
            forall|i: usize, j: usize|
                i < rows && j < columns ==> #[trigger] call_requires(f, (i, j)),
        ensures
            r.height() == rows,
            r.width() == columns,
            r.row_major().len() == rows * columns,
            forall|i: usize, j: usize|
                i < rows && j < columns ==> call_ensures(
                    f,
                    (i, j),
                    #[trigger] r.at(i as int, j as int),
                ),
    {
        let mut cells: Vec<Double> = Vec::with_capacity(rows * columns);
        let mut i: usize = 0;
        proof {
            assert(0 * columns == 0);
        }
        while i < rows
            invariant
                i <= rows,
                rows * columns <= usize::MAX,
                cells.len() == i * columns,
                forall|a: usize, b: usize|
                    a < rows && b < columns ==> #[trigger] call_requires(f, (a, b)),
                forall|a: usize, b: usize|
                    a < i && b < columns ==> call_ensures(
                        f,
                        (a, b),
                        #[trigger] cells@[a * columns + b],
                    ),
            decreases rows - i,
        {
            let mut j: usize = 0;
            while j < columns
                invariant
                    i < rows,
                    j <= columns,
                    cells.len() == i * columns + j,
                    forall|a: usize, b: usize|
                        a < rows && b < columns ==> #[trigger] call_requires(f, (a, b)),
                    forall|a: usize, b: usize|
                        (a < i && b < columns) || (a == i && b < j) ==> call_ensures(
                            f,
                            (a, b),
                            #[trigger] cells@[a * columns + b],
                        ),
                decreases columns - j,
            {
                let ghost cells0 = cells@;
                cells.push(f(i, j));
                proof {
                    assert forall|a: usize, b: usize|
                        (a < i && b < columns) || (a == i && b < j + 1) implies call_ensures(
                        f,
                        (a, b),
                        #[trigger] cells@[a * columns + b],
                    ) by {
                        if a < i {
                            assert(a * columns + columns <= i * columns) by (nonlinear_arith)
                                requires
                                    a + 1 <= i,
                                    0 <= columns,
                            ;
                            assert(0 <= a * columns) by (nonlinear_arith)
                                requires
                                    0 <= a,
                                    0 <= columns,
                            ;
                        } else {
                            assert(0 <= i * columns) by (nonlinear_arith)
                                requires
                                    0 <= i,
                                    0 <= columns,
                            ;
                        }
                        if !(a == i && b == j) {
                            assert(cells@[a * columns + b] == cells0[a * columns + b]);
                        }
                    }
                }
                j = j + 1;
            }
            proof {
                assert((i + 1) * columns == i * columns + columns) by (nonlinear_arith);
            }
            i = i + 1;
        }
        DoubleMatrix { rows, columns, cells }
    }

    /// The matrix whose cell `(i, j)` is `f(i, j)`, which is always `g(i, j)`.
    pub(crate) fn tabulate<F: Fn(usize, usize) -> Double>(
        rows: usize,
        columns: usize,
        f: F,
        Ghost(g): Ghost<spec_fn(int, int) -> Double>,
    ) -> (r: DoubleMatrix)
        requires
            rows * columns <= usize::MAX,
            forall|i: usize, j: usize|
                i < rows && j < columns ==> #[trigger] call_requires(f, (i, j)),
            forall|i: usize, j: usize, v: Double|
                i < rows && j < columns && #[trigger] call_ensures(f, (i, j), v) ==> v == g(
                    i as int,
                    j as int,
                ),
        ensures
            r@ == Grid::tabulate(rows as nat, columns as nat, g),
    {
        let r: DoubleMatrix = DoubleMatrix::from_fn(rows, columns, f);
        proof {
            assert forall|i: int, j: int| 0 <= i < rows && 0 <= j < columns implies
                #[trigger] r@.at(i, j) == g(i, j) by {
                assert(call_ensures(
                    f,
                    (i as usize, j as usize),
                    r.at(i as usize as int, j as usize as int),
                ));
            }
            lemma_tabulated(r@, g);
        }
        r
    }

    /// The cell in row `i`, column `j`.
    pub fn get(&self, i: usize, j: usize) -> (r: Double)
        requires
            i < self.height(),
            j < self.width(),
        ensures
            r == self.at(i as int, j as int),
    {
        proof {
            use_type_invariant(self);
            assert(0 <= i * self.columns && i * self.columns + self.columns <= self.rows
                * self.columns) by (nonlinear_arith)
                requires
                    0 <= i < self.rows,
                    0 <= self.columns,
            ;
        }
        let size: usize = self.cells.len();
        self.cells[i * self.columns + j]
    }

    /// A copy.
    pub fn copied(&self) -> (r: DoubleMatrix)
        ensures
            r.height() == self.height(),
            r.width() == self.width(),
            r.row_major() == self.row_major(),
    {
        let cells: &[Double] = self.cells();
        DoubleMatrix::from_row_slice(self.rows, self.columns, cells)
    }

    /// Number of rows and columns.
    pub fn shape(&self) -> (r: (usize, usize))
        ensures
            r.0 == self.height(),
            r.1 == self.width(),
    {
        (self.rows, self.columns)
    }

    /// The cells, row by row.
    pub fn cells(&self) -> (r: &[Double])
        ensures
            r@ == self.row_major(),
            r@.len() == self.height() * self.width(),
    {
        proof {
            use_type_invariant(self);
        }
        &self.cells
    }
}

/// Row `i` of a matrix.
pub open spec fn row(m: Grid, i: int) -> Seq<Double> {
    Seq::new(m.width, |x: int| m.at(i, x))
}

/// A copy of row `i`.
pub fn copy_row(m: &DoubleMatrix, i: usize) -> (r: Vec<Double>)
    requires
        i < m.height(),
    ensures
        r@ == row(m@, i as int),
{
    let (_, width) = m.shape();
    let mut r: Vec<Double> = Vec::with_capacity(width);
    while r.len() < width
        invariant
            width == m.width(),
            i < m.height(),
            r.len() <= width,
            forall|x: int| 0 <= x < r.len() ==> #[trigger] r@[x] == m.at(i as int, x),
        decreases width - r.len(),
    {
        r.push(m.get(i, r.len()));
    }
    proof {
        assert(r@ =~= row(m@, i as int));
    }
    r
}

/// A tabulated cell.
pub proof fn lemma_tabulated_cell(
    height: nat,
    width: nat,
    f: spec_fn(int, int) -> Double,
    i: int,
    j: int,
)
    requires
        0 <= i < height,
        0 <= j < width,
    ensures
        Grid::tabulate(height, width, f).at(i, j) == f(i, j),
{
    crate::cluster::hungarian::sums::lemma_index(height as int, width as int, i, j);
    vstd::arithmetic::div_mod::lemma_fundamental_div_mod_converse(
        i * width + j,
        width as int,
        i,
        j,
    );
}

} // verus!
