use vstd::prelude::*;

verus! {

/// A position on the key grid: row `r`, column `c`.
#[derive(Debug, Clone, Copy, PartialEq, Eq, Hash, Structural)]
pub struct Pos {
    pub r: usize,
    pub c: usize,
}

impl Pos {
    pub fn new(r: usize, c: usize) -> (pos: Self)
        ensures
            pos.r == r,
            pos.c == c,
    {
        Pos { r, c }
    }
}

/// Why a list of rows cannot be turned into a matrix.
#[derive(Debug, Clone, Copy, PartialEq, Eq, Structural)]
pub enum MatrixError {
    /// There is no row at all.
    Empty,
    /// Some row is not as long as the first one.
    InconsistentRowLengths,
}

/// A rectangular grid stored row by row. The fields `rows` and `columns`
/// hold its shape; `num_rows` and `num_columns` read them and state that
/// they are `row_count()` and `column_count()`. (Outside this module a
/// contract cannot name the fields themselves: the private `data` makes the
/// type opaque there.)
#[derive(Debug)]
pub struct Matrix<T> {
    pub rows: usize,
    pub columns: usize,
    data: Vec<T>,
}

/// All rows of `data` are as long as the first one.
pub open spec fn rows_have_length<T>(data: Seq<Seq<T>>, len: int) -> bool {
    forall|i: int| 0 <= i < data.len() ==> #[trigger] data[i].len() == len
}

/// The rows of `data`, concatenated.
pub open spec fn flatten<T>(data: Seq<Seq<T>>) -> Seq<T>
    decreases data.len(),
{
    if data.len() == 0 {
        Seq::empty()
    } else {
        flatten(data.drop_last()) + data.last()
    }
}

/// The `rows` by `columns` grid whose cells are `cells`, in row-major order.
pub open spec fn grid_of<T>(rows: int, columns: int, cells: Seq<T>) -> Seq<Seq<T>> {
    Seq::new(rows as nat, |r: int| Seq::new(columns as nat, |c: int| cells[r * columns + c]))
}

impl<T> Matrix<T> {
    /// The cells, in row-major order.
    pub closed spec fn cells(&self) -> Seq<T> {
        self.data@
    }

    /// The number of rows.
    pub closed spec fn row_count(&self) -> nat {
        self.rows as nat
    }

    /// The number of columns.
    pub closed spec fn column_count(&self) -> nat {
        self.columns as nat
    }

    /// The matrix holds exactly `rows * columns` cells.
    pub open spec fn wf(&self) -> bool {
        self.cells().len() == self.row_count() * self.column_count()
    }

    pub open spec fn in_bounds(&self, r: int, c: int) -> bool {
        0 <= r < self.row_count() && 0 <= c < self.column_count()
    }

    /// The cell at row `r`, column `c`.
    pub open spec fn at(&self, r: int, c: int) -> T {
        self.cells()[r * self.column_count() + c]
    }

    /// The matrix as a sequence of rows.
    pub open spec fn row_seqs(&self) -> Seq<Seq<T>> {
        grid_of(self.row_count() as int, self.column_count() as int, self.cells())
    }

    /// A cell index `r * columns + c` of an in-bounds position lies within the cells.
    pub proof fn lemma_index_in_range(rows: int, columns: int, r: int, c: int)
        requires
            0 <= r < rows,
            0 <= c < columns,
        ensures
            0 <= r * columns + c < rows * columns,
    {
        assert(r * columns + c < rows * columns) by (nonlinear_arith)
            requires
                0 <= r < rows,
                0 <= c < columns,
        ;
        assert(0 <= r * columns) by (nonlinear_arith)
            requires
                0 <= r,
                0 <= c < columns,
        ;
    }

    proof fn lemma_flatten_len(data: Seq<Seq<T>>, len: int)
        requires
            rows_have_length(data, len),
            len >= 0,
        ensures
            flatten(data).len() == data.len() * len,
        decreases data.len(),
    {
        if data.len() > 0 {
            Self::lemma_flatten_len(data.drop_last(), len);
            assert(data.len() * len == (data.len() - 1) * len + len) by (nonlinear_arith);
        }
    }

    proof fn lemma_flatten_index(data: Seq<Seq<T>>, len: int, r: int, c: int)
        requires
            rows_have_length(data, len),
            0 <= r < data.len(),
            0 <= c < len,
        ensures
            flatten(data)[r * len + c] == data[r][c],
        decreases data.len(),
    {
        Self::lemma_flatten_len(data.drop_last(), len);
        assert((data.len() - 1) * len == data.len() * len - len) by (nonlinear_arith);
        if r < data.len() - 1 {
            Self::lemma_flatten_index(data.drop_last(), len, r, c);
            Self::lemma_index_in_range(data.len() - 1, len, r, c);
        } else {
            assert(r * len == (data.len() - 1) * len);
        }
    }

    /// Distinct in-bounds positions have distinct cell indices.
    pub proof fn lemma_index_injective(columns: int, r1: int, c1: int, r2: int, c2: int)
        requires
            0 <= r1,
            0 <= r2,
            0 <= c1 < columns,
            0 <= c2 < columns,
            r1 * columns + c1 == r2 * columns + c2,
        ensures
            r1 == r2,
            c1 == c2,
    {
        if r1 < r2 {
            assert(r1 * columns + columns <= r2 * columns) by (nonlinear_arith)
                requires
                    r1 < r2,
                    0 <= c1 < columns,
            ;
        } else if r2 < r1 {
            assert(r2 * columns + columns <= r1 * columns) by (nonlinear_arith)
                requires
                    r2 < r1,
                    0 <= c2 < columns,
            ;
        }
    }

    /// Writing one cell changes exactly that cell of the grid.
    proof fn lemma_grid_update(rows: int, columns: int, cells: Seq<T>, r: int, c: int)
        requires
            cells.len() == rows * columns,
            0 <= r < rows,
            0 <= c < columns,
        ensures
            forall|v: T|
                #[trigger] grid_of(rows, columns, cells.update(r * columns + c, v)) == grid_of(
                    rows,
                    columns,
                    cells,
                ).update(r, grid_of(rows, columns, cells)[r].update(c, v)),
    {
        assert forall|v: T|
            #[trigger] grid_of(rows, columns, cells.update(r * columns + c, v)) == grid_of(
                rows,
                columns,
                cells,
            ).update(r, grid_of(rows, columns, cells)[r].update(c, v)) by {
            let after = grid_of(rows, columns, cells.update(r * columns + c, v));
            let expected = grid_of(rows, columns, cells).update(
                r,
                grid_of(rows, columns, cells)[r].update(c, v),
            );
            assert forall|i: int| 0 <= i < rows implies #[trigger] after[i] == expected[i] by {
                assert forall|j: int| 0 <= j < columns implies after[i][j] == expected[i][j] by {
                    Self::lemma_index_in_range(rows, columns, i, j);
                    Self::lemma_index_in_range(rows, columns, r, c);
                    if i != r || j != c {
                        if i * columns + j == r * columns + c {
                            Self::lemma_index_injective(columns, i, j, r, c);
                        }
                    }
                }
                assert(after[i] =~= expected[i]);
            }
            assert(after =~= expected);
        }
    }

    /// The position of cell (`r`, `c`) in the row-major storage.
    fn cell_index(&self, r: usize, c: usize) -> (idx: usize)
        requires
            self.wf(),
            self.in_bounds(r as int, c as int),
        ensures
            idx == r * self.column_count() + c,
            idx < self.cells().len(),
    {
        let n = self.data.len();
        proof {
            Self::lemma_index_in_range(self.rows as int, self.columns as int, r as int, c as int);
            assert(r * self.columns <= r * self.columns + c);
        }
        r * self.columns + c
    }

    /// Builds a matrix from its rows. It fails on an empty list of rows and
    /// on rows of different lengths.
    pub fn new(data: Vec<Vec<T>>) -> (res: Result<Self, MatrixError>)
        ensures
            data@.len() == 0 ==> res == Err::<Self, MatrixError>(MatrixError::Empty),
            data@.len() > 0 && !rows_have_length(data@.map_values(|row: Vec<T>| row@), data@[0]@.len() as int)
                ==> res == Err::<Self, MatrixError>(MatrixError::InconsistentRowLengths),
            data@.len() > 0 && rows_have_length(data@.map_values(|row: Vec<T>| row@), data@[0]@.len() as int)
                ==> (res matches Ok(m) && m.wf() && m.row_count() == data@.len() && m.column_count() == data@[0]@.len()
                    && m.row_seqs() == data@.map_values(|row: Vec<T>| row@)),
    {
        let rows = data.len();
        if rows == 0 {
            return Err(MatrixError::Empty);
        }
        let columns = data[0].len();
        let ghost rows_view = data@.map_values(|row: Vec<T>| row@);

        let mut i: usize = 0;
        while i < rows
            invariant
                rows == data@.len(),
                columns == data@[0]@.len(),
                0 <= i <= rows,
                rows_view == data@.map_values(|row: Vec<T>| row@),
                forall|j: int| 0 <= j < i ==> #[trigger] rows_view[j].len() == columns,
            decreases rows - i,
        {
            if data[i].len() != columns {
                assert(rows_view[i as int].len() != columns);
                return Err(MatrixError::InconsistentRowLengths);
            }
            i = i + 1;
        }

        let mut flat: Vec<T> = Vec::new();
        let mut k: usize = 0;
        for row in it: data
            invariant
                rows_view.len() == rows,
                rows_have_length(rows_view, columns as int),
                it.seq() == data@,
                rows_view == data@.map_values(|row: Vec<T>| row@),
                flat@ == flatten(rows_view.take(it.index() as int)),
        {
            let ghost idx = it.index();
            let mut row = row;
            let ghost before = flat@;
            flat.append(&mut row);
            proof {
                assert(rows_view.take(idx + 1).drop_last() == rows_view.take(idx as int));
            }
        }
        proof {
            assert(rows_view.take(rows as int) == rows_view);
            Self::lemma_flatten_len(rows_view, columns as int);
        }
        let m = Matrix { rows, columns, data: flat };
        proof {
            assert forall|r: int| 0 <= r < rows implies #[trigger] m.row_seqs()[r] == rows_view[r] by {
                assert forall|c: int| 0 <= c < columns implies m.row_seqs()[r][c] == rows_view[r][c] by {
                    Self::lemma_flatten_index(rows_view, columns as int, r, c);
                }
                assert(m.row_seqs()[r] =~= rows_view[r]);
            }
            assert(m.row_seqs() =~= rows_view);
        }
        Ok(m)
    }

    /// The number of rows.
    pub fn num_rows(&self) -> (n: usize)
        ensures
            n == self.row_count(),
    {
        self.rows
    }

    /// The number of columns.
    pub fn num_columns(&self) -> (n: usize)
        ensures
            n == self.column_count(),
    {
        self.columns
    }

    /// The number of cells, `rows * columns`.
    pub fn cell_count(&self) -> (n: usize)
        requires
            self.wf(),
        ensures
            n == self.row_count() * self.column_count(),
    {
        self.data.len()
    }

    /// The cell at `position`, if the position lies inside the matrix.
    pub fn get(&self, position: &Pos) -> (res: Option<&T>)
        requires
            self.wf(),
        ensures
            res is Some <==> self.in_bounds(position.r as int, position.c as int),
            res matches Some(v) ==> *v == self.at(position.r as int, position.c as int),
    {
        if position.r < self.rows && position.c < self.columns {
            proof {
                Self::lemma_index_in_range(
                    self.rows as int,
                    self.columns as int,
                    position.r as int,
                    position.c as int,
                );
            }
            Some(&self.data[self.cell_index(position.r, position.c)])
        } else {
            None
        }
    }

    /// A mutable reference to the cell at `position`, if the position lies
    /// inside the matrix.
    pub fn get_mut(&mut self, position: &Pos) -> (res: Option<&mut T>)
        requires
            old(self).wf(),
        ensures
            res is Some <==> old(self).in_bounds(position.r as int, position.c as int),
            final(self).wf(),
            final(self).row_count() == old(self).row_count(),
            final(self).column_count() == old(self).column_count(),
            res is None ==> final(self).cells() == old(self).cells(),
            res is Some ==> *res->0 == old(self).at(position.r as int, position.c as int),
            res is Some ==> final(self).cells() == old(self).cells().update(
                position.r * old(self).column_count() + position.c,
                *final(res->0),
            ),
            res is Some ==> final(self).row_seqs() == old(self).row_seqs().update(
                position.r as int,
                old(self).row_seqs()[position.r as int].update(position.c as int, *final(res->0)),
            ),
    {
        if position.r < self.rows && position.c < self.columns {
            let idx = self.cell_index(position.r, position.c);
            proof {
                Self::lemma_grid_update(
                    self.rows as int,
                    self.columns as int,
                    self.data@,
                    position.r as int,
                    position.c as int,
                );
            }
            Some(&mut self.data[idx])
        } else {
            None
        }
    }

}

impl<T: Copy> Matrix<T> {
    /// A `rows` by `columns` matrix whose cells all hold `value`.
    pub fn filled(rows: usize, columns: usize, value: T) -> (m: Self)
        requires
            rows * columns <= usize::MAX,
        ensures
            m.wf(),
            m.row_count() == rows,
            m.column_count() == columns,
            m.cells() == Seq::new((rows * columns) as nat, |i: int| value),
            m.row_seqs() == Seq::new(rows as nat, |r: int| Seq::new(columns as nat, |c: int| value)),
    {
        let n = rows * columns;
        let mut data: Vec<T> = Vec::new();
        let mut i: usize = 0;
        while i < n
            invariant
                0 <= i <= n,
                data@ == Seq::new(i as nat, |k: int| value),
            decreases n - i,
        {
            data.push(value);
            i = i + 1;
            assert(data@ =~= Seq::new(i as nat, |k: int| value));
        }
        let m = Matrix { rows, columns, data };
        proof {
            let expected = Seq::new(rows as nat, |r: int| Seq::new(columns as nat, |c: int| value));
            assert forall|r: int| 0 <= r < rows implies #[trigger] m.row_seqs()[r] == expected[r] by {
                assert forall|c: int| 0 <= c < columns implies m.row_seqs()[r][c] == expected[r][c] by {
                    Self::lemma_index_in_range(rows as int, columns as int, r, c);
                }
                assert(m.row_seqs()[r] =~= expected[r]);
            }
            assert(m.row_seqs() =~= expected);
        }
        m
    }

    /// The rows of the matrix, top to bottom.
    pub fn rows_iter(&self) -> (res: Vec<Vec<T>>)
        requires
            self.wf(),
        ensures
            res@.map_values(|row: Vec<T>| row@) == self.row_seqs(),
    {
        let mut res: Vec<Vec<T>> = Vec::new();
        let mut r: usize = 0;
        while r < self.rows
            invariant
                self.wf(),
                0 <= r <= self.rows,
                res@.len() == r,
                forall|i: int| 0 <= i < r ==> #[trigger] res@[i]@ == self.row_seqs()[i],
            decreases self.rows - r,
        {
            let mut row: Vec<T> = Vec::new();
            let mut c: usize = 0;
            while c < self.columns
                invariant
                    self.wf(),
                    0 <= r < self.rows,
                    0 <= c <= self.columns,
                    row@ == Seq::new(c as nat, |k: int| self.at(r as int, k)),
                decreases self.columns - c,
            {
                proof {
                    Self::lemma_index_in_range(
                        self.rows as int,
                        self.columns as int,
                        r as int,
                        c as int,
                    );
                }
                let idx = self.cell_index(r, c);
                row.push(self.data[idx]);
                c = c + 1;
                assert(row@ =~= Seq::new(c as nat, |k: int| self.at(r as int, k)));
            }
            assert(row@ =~= self.row_seqs()[r as int]);
            res.push(row);
            r = r + 1;
        }
        assert(res@.map_values(|row: Vec<T>| row@) =~= self.row_seqs());
        res
    }

    /// A copy of the matrix.
    pub fn duplicate(&self) -> (res: Self)
        ensures
            res.row_count() == self.row_count(),
            res.column_count() == self.column_count(),
            res.cells() == self.cells(),
    {
        let mut data: Vec<T> = Vec::new();
        let mut i: usize = 0;
        while i < self.data.len()
            invariant
                0 <= i <= self.data@.len(),
                data@ == self.data@.take(i as int),
            decreases self.data@.len() - i,
        {
            data.push(self.data[i]);
            i = i + 1;
            assert(data@ =~= self.data@.take(i as int));
        }
        assert(data@ =~= self.data@);
        Matrix { rows: self.rows, columns: self.columns, data }
    }
}

} // verus!
