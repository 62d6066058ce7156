use vstd::prelude::*;

verus! {

/// The largest side length a grid may have.
pub const MAX_SIDE: usize = 25;

/// Errors reported by grid construction and generation.
#[derive(Debug, Clone, Copy, PartialEq, Eq, Structural)]
pub enum SudokuError {
    /// A block dimension is zero, or the side length exceeds `MAX_SIDE`.
    InvalidSize,
    /// A position outside the grid was addressed.
    OutOfBounds,
    /// A value outside `1..=side` was placed.
    InvalidNumber,
    /// The constraint admits no full grid of the requested shape.
    Unsatisfiable,
}

/// A square grid of `size * size` cells, stored row-major; `0` marks an empty
/// cell and `1..=size` a filled one. `size == block_width * block_height`.
#[derive(Debug, Clone)]
pub struct Grid {
    pub block_width: usize,
    pub block_height: usize,
    pub size: usize,
    pub cells: Vec<usize>,
}

/// Block dimensions that give a supported grid.
pub open spec fn valid_dims(block_width: int, block_height: int) -> bool {
    1 <= block_width && 1 <= block_height && block_width * block_height <= MAX_SIDE
}

/// The flat index of a cell of a `size`-wide grid lies in the grid and gives
/// back its row and column.
pub proof fn lemma_index(size: int, col: int, row: int)
    requires
        0 <= col < size,
        0 <= row < size,
        size <= MAX_SIDE,
    ensures
        0 <= row * size + col < size * size,
        size * size <= MAX_SIDE * MAX_SIDE,
        (row * size + col) / size == row,
        (row * size + col) % size == col,
{
    vstd::arithmetic::div_mod::lemma_fundamental_div_mod_converse(row * size + col, size, row, col);
    assert(row * size + col < size * size) by (nonlinear_arith)
        requires
            0 <= col < size,
            0 <= row < size,
    ;
    assert(size * size <= MAX_SIDE * MAX_SIDE) by (nonlinear_arith)
        requires
            0 <= size <= MAX_SIDE,
    ;
    assert(0 <= row * size) by (nonlinear_arith)
        requires
            0 <= row,
            0 <= size,
    ;
}

/// `values` is the row-major form of a supported grid with these block
/// dimensions: the right length, each value `0` (empty) or in `1..=side`.
pub open spec fn flat_accepts(block_width: int, block_height: int, values: Seq<usize>) -> bool {
    &&& valid_dims(block_width, block_height)
    &&& values.len() == (block_width * block_height) * (block_width * block_height)
    &&& forall|i: int| 0 <= i < values.len() ==> #[trigger] values[i] <= block_width * block_height
}

impl Grid {
    /// This grid has these block dimensions and these row-major cells.
    pub open spec fn is_flat_grid(&self, block_width: int, block_height: int, values: Seq<usize>) -> bool {
        &&& self.block_width == block_width
        &&& self.block_height == block_height
        &&& self.size == block_width * block_height
        &&& self.cells@ == values
    }

    /// The grid's shape is supported and every cell is empty or in `1..=size`.
    pub open spec fn wf(&self) -> bool {
        &&& valid_dims(self.block_width as int, self.block_height as int)
        &&& self.size == self.block_width * self.block_height
        &&& self.cells@.len() == self.size * self.size
        &&& forall|i: int| 0 <= i < self.cells@.len() ==> #[trigger] self.cells@[i] <= self.size
    }

    /// Both grids have the same block dimensions.
    pub open spec fn same_shape(&self, other: &Grid) -> bool {
        &&& self.block_width == other.block_width
        &&& self.block_height == other.block_height
        &&& self.size == other.size
        &&& self.cells@.len() == other.cells@.len()
    }

    /// Same shape and same cell values.
    pub open spec fn equals(&self, other: &Grid) -> bool {
        self.same_shape(other) && self.cells@ == other.cells@
    }

    /// `(size, block_width, block_height)`.
    pub open spec fn shape(&self) -> (usize, usize, usize) {
        (self.size, self.block_width, self.block_height)
    }

    /// The number of cells.
    pub open spec fn len(&self) -> int {
        self.cells@.len() as int
    }

    /// The flat index of `(col, row)`.
    pub open spec fn index_of(&self, col: int, row: int) -> int {
        row * self.size + col
    }

    /// Every cell is filled.
    pub open spec fn full_cells(&self, s: Seq<usize>) -> bool {
        forall|i: int| 0 <= i < s.len() ==> 1 <= #[trigger] s[i] <= self.size
    }

    /// Every filled cell of this grid holds the same value in `s`.
    pub open spec fn extended_by(&self, s: Seq<usize>) -> bool {
        &&& s.len() == self.cells@.len()
        &&& forall|i: int| 0 <= i < s.len() && self.cells@[i] != 0 ==> #[trigger] s[i] == self.cells@[i]
    }

    /// The number of filled cells among the first `n`.
    pub open spec fn filled_prefix(s: Seq<usize>, n: int) -> nat
        decreases n,
    {
        if n <= 0 {
            0
        } else {
            Self::filled_prefix(s, n - 1) + if s[n - 1] != 0 { 1nat } else { 0nat }
        }
    }

    /// The number of filled cells.
    pub open spec fn filled_count(&self) -> nat {
        Self::filled_prefix(self.cells@, self.cells@.len() as int)
    }

    /// An empty grid; `InvalidSize` unless the dimensions are supported.
    pub fn new(block_width: usize, block_height: usize) -> (r: Result<Grid, SudokuError>)
        ensures
            valid_dims(block_width as int, block_height as int) <==> r is Ok,
            !valid_dims(block_width as int, block_height as int) ==> r == Err::<Grid, SudokuError>(
                SudokuError::InvalidSize,
            ),
            r matches Ok(g) ==> {
                &&& g.wf()
                &&& g.block_width == block_width
                &&& g.block_height == block_height
                &&& forall|i: int| 0 <= i < g.len() ==> #[trigger] g.cells@[i] == 0
            },
    {
        if block_width == 0 || block_height == 0 || block_width > MAX_SIDE || block_height > MAX_SIDE {
            proof {
                if block_width > MAX_SIDE && block_height >= 1 {
                    assert(block_width * block_height >= block_width) by (nonlinear_arith)
                        requires block_height >= 1;
                }
                if block_height > MAX_SIDE && block_width >= 1 {
                    assert(block_width * block_height >= block_height) by (nonlinear_arith)
                        requires block_width >= 1;
                }
            }
            return Err(SudokuError::InvalidSize);
        }
        assert(block_width * block_height <= MAX_SIDE * MAX_SIDE) by (nonlinear_arith)
            requires block_width <= MAX_SIDE, block_height <= MAX_SIDE;
        let size = block_width * block_height;
        if size > MAX_SIDE {
            return Err(SudokuError::InvalidSize);
        }
        assert(size * size <= MAX_SIDE * MAX_SIDE) by (nonlinear_arith)
            requires size <= MAX_SIDE;
        let n = size * size;
        let mut cells: Vec<usize> = Vec::new();
        let mut i: usize = 0;
        while i < n
            invariant
                i <= n,
                cells@.len() == i,
                forall|k: int| 0 <= k < i ==> #[trigger] cells@[k] == 0,
            decreases n - i,
        {
            cells.push(0);
            i += 1;
        }
        Ok(Grid { block_width, block_height, size, cells })
    }

    /// A copy of this grid.
    pub fn snapshot(&self) -> (r: Grid)
        ensures
            r.equals(self),
    {
        let cells = self.cells.clone();
        assert(cells@ =~= self.cells@);
        Grid { block_width: self.block_width, block_height: self.block_height, size: self.size, cells }
    }

    /// The value at `(col, row)`, or `OutOfBounds`.
    pub fn get(&self, col: usize, row: usize) -> (r: Result<Option<usize>, SudokuError>)
        requires
            self.wf(),
        ensures
            (col < self.size && row < self.size) <==> r is Ok,
            !(col < self.size && row < self.size) ==> r == Err::<Option<usize>, SudokuError>(
                SudokuError::OutOfBounds,
            ),
            r matches Ok(v) ==> v == if self.cells@[self.index_of(col as int, row as int)] == 0 {
                None
            } else {
                Some(self.cells@[self.index_of(col as int, row as int)])
            },
    {
        if col >= self.size || row >= self.size {
            return Err(SudokuError::OutOfBounds);
        }
        proof {
            lemma_index(self.size as int, col as int, row as int);
        }
        let v = self.cells[row * self.size + col];
        if v == 0 {
            Ok(None)
        } else {
            Ok(Some(v))
        }
    }

    /// Writes `value` (or clears the cell, for `None`) at `(col, row)`.
    /// Fails with `OutOfBounds` for a position outside the grid, and with
    /// `InvalidNumber` for a value outside `1..=size`; the grid is then unchanged.
    pub fn set(&mut self, col: usize, row: usize, value: Option<usize>) -> (r: Result<(), SudokuError>)
        requires
            old(self).wf(),
        ensures
            final(self).wf(),
            final(self).same_shape(old(self)),
            !(col < old(self).size && row < old(self).size) ==> r == Err::<(), SudokuError>(
                SudokuError::OutOfBounds,
            ),
            (col < old(self).size && row < old(self).size && (value matches Some(v) && !(1 <= v
                <= old(self).size))) ==> r == Err::<(), SudokuError>(SudokuError::InvalidNumber),
            r is Err ==> final(self).equals(old(self)),
            r is Ok ==> final(self).cells@ == old(self).cells@.update(
                old(self).index_of(col as int, row as int),
                match value {
                    Some(v) => v,
                    None => 0,
                },
            ),
            r is Ok <==> (col < old(self).size && row < old(self).size && match value {
                Some(v) => 1 <= v <= old(self).size,
                None => true,
            }),
    {
        if col >= self.size || row >= self.size {
            return Err(SudokuError::OutOfBounds);
        }
        let v = match value {
            Some(v) => v,
            None => 0,
        };
        if value.is_some() && (v == 0 || v > self.size) {
            return Err(SudokuError::InvalidNumber);
        }
        proof {
            lemma_index(self.size as int, col as int, row as int);
        }
        let idx = row * self.size + col;
        self.cells.set(idx, v);
        Ok(())
    }

    /// No cell is empty.
    pub fn is_full(&self) -> (r: bool)
        requires
            self.wf(),
        ensures
            r == self.full_cells(self.cells@),
    {
        let mut i: usize = 0;
        while i < self.cells.len()
            invariant
                self.wf(),
                i <= self.cells@.len(),
                forall|k: int| 0 <= k < i ==> 1 <= #[trigger] self.cells@[k] <= self.size,
            decreases self.cells@.len() - i,
        {
            if self.cells[i] == 0 {
                return false;
            }
            i += 1;
        }
        true
    }

    /// The cells in row-major order, `0` for an empty cell.
    pub fn to_flat(&self) -> (r: Vec<usize>)
        requires
            self.wf(),
        ensures
            r@ == self.cells@,
    {
        let r = self.cells.clone();
        assert(r@ =~= self.cells@);
        r
    }

    /// The grid with these block dimensions whose row-major cells are
    /// `values` (`0` for empty). `InvalidSize` for unsupported dimensions or a
    /// wrong number of values, else `InvalidNumber` for a value above the side.
    pub fn from_flat(block_width: usize, block_height: usize, values: &Vec<usize>) -> (r: Result<
        Grid,
        SudokuError,
    >)
        ensures
            r is Ok <==> flat_accepts(block_width as int, block_height as int, values@),
            r matches Ok(g) ==> g.wf() && g.is_flat_grid(
                block_width as int,
                block_height as int,
                values@,
            ),
            (!valid_dims(block_width as int, block_height as int) || values@.len() != (block_width
                * block_height) * (block_width * block_height)) ==> r == Err::<Grid, SudokuError>(
                SudokuError::InvalidSize,
            ),
            r is Err && valid_dims(block_width as int, block_height as int) && values@.len() == (
            block_width * block_height) * (block_width * block_height) ==> r == Err::<
                Grid,
                SudokuError,
            >(SudokuError::InvalidNumber),
    {
        let g = match Grid::new(block_width, block_height) {
            Ok(g) => g,
            Err(e) => {
                return Err(e);
            },
        };
        if values.len() != g.cells.len() {
            return Err(SudokuError::InvalidSize);
        }
        assert(values@.len() == (block_width * block_height) * (block_width * block_height));
        let mut i: usize = 0;
        while i < values.len()
            invariant
                g.wf(),
                g.size == block_width * block_height,
                valid_dims(block_width as int, block_height as int),
                values@.len() == (block_width * block_height) * (block_width * block_height),
                i <= values@.len(),
                forall|k: int| 0 <= k < i ==> #[trigger] values@[k] <= g.size,
            decreases values@.len() - i,
        {
            if values[i] > g.size {
                return Err(SudokuError::InvalidNumber);
            }
            i += 1;
        }
        let cells = values.clone();
        assert(cells@ =~= values@);
        Ok(Grid { block_width, block_height, size: g.size, cells })
    }
}

/// Parsing the flat form of a grid gives the grid back: `from_flat` accepts
/// its dimensions and `to_flat` output, and describes the same grid.
pub proof fn lemma_flat_round_trip(g: &Grid)
    requires
        g.wf(),
    ensures
        flat_accepts(g.block_width as int, g.block_height as int, g.cells@),
        g.is_flat_grid(g.block_width as int, g.block_height as int, g.cells@),
{
}

} // verus!
