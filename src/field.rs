use vstd::prelude::*;

use itertools::Itertools;

use vstd::arithmetic::div_mod::{
    lemma_fundamental_div_mod, lemma_fundamental_div_mod_converse, lemma_mod_pos_bound,
};

use crate::error::{ConfigurationError, OutOfBounds};
use crate::gameplay_params::{FieldBorders, GameplayParams, MapGeneration};
use crate::grid::{cell_of_draw, count_alive, distinct_except, is_glider_cell, lemma_distinct_except, pairs_of, Grid};

verus! {

/// The state of one cell.
#[derive(Debug, Copy, Clone, PartialEq, Eq, Structural)]
pub enum CellState {
    Dead,
    Life,
}

/// One cell of a field buffer.
#[derive(Debug, Copy, Clone, PartialEq, Eq, Structural)]
pub struct Cell {
    pub state: CellState,
}

/// Which of the two buffers holds the live generation.
#[derive(Debug, Copy, Clone, PartialEq, Eq, Structural)]
pub enum CellsPointer {
    First,
    Second,
}

impl CellsPointer {
    /// The other buffer.
    pub fn swap(self) -> (r: Self)
        ensures
            r != self,
    {
        match self {
            CellsPointer::First => CellsPointer::Second,
            CellsPointer::Second => CellsPointer::First,
        }
    }
}

/// Number of rows (and of columns) of a square field.
#[derive(Debug, Copy, Clone)]
pub struct Width(usize);

impl Width {
    /// Row-major position of `(row, column)` in a flat buffer.
    fn calc_index(&self, row: usize, column: usize) -> (r: usize)
        requires
            row < self.0,
            column < self.0,
            self.0 * self.0 <= usize::MAX,
        ensures
            r == row * self.0 + column,
            r < self.0 * self.0,
    {
        proof {
            lemma_index_in_bounds(self.0 as int, row as int, column as int);
        }
        row * self.0 + column
    }
}

proof fn lemma_index_in_bounds(n: int, r: int, c: int)
    requires
        0 <= r < n,
        0 <= c < n,
    ensures
        0 <= r * n + c < n * n,
{
    assert(r * n + c < n * n) by (nonlinear_arith)
        requires
            0 <= r < n,
            0 <= c < n,
    ;
    assert(0 <= r * n) by (nonlinear_arith)
        requires
            0 <= r,
            0 <= n,
    ;
}

proof fn lemma_index_injective(n: int, r1: int, c1: int, r2: int, c2: int)
    requires
        0 <= r1 < n,
        0 <= c1 < n,
        0 <= r2 < n,
        0 <= c2 < n,
        r1 * n + c1 == r2 * n + c2,
    ensures
        r1 == r2,
        c1 == c2,
{
    if r1 < r2 {
        assert(r1 * n + n <= r2 * n) by (nonlinear_arith)
            requires
                r1 < r2,
                0 <= n,
        ;
    } else if r2 < r1 {
        assert(r2 * n + n <= r1 * n) by (nonlinear_arith)
            requires
                r2 < r1,
                0 <= n,
        ;
    }
}

/// A position below `n * n` is a row and a column below `n`.
proof fn lemma_split_index(k: int, n: int)
    requires
        n > 0,
        0 <= k < n * n,
    ensures
        0 <= k / n < n,
        0 <= k % n < n,
        k == (k / n) * n + k % n,
{
    lemma_fundamental_div_mod(k, n);
    lemma_mod_pos_bound(k, n);
    let q = k / n;
    let m = k % n;
    assert(0 <= q < n) by (nonlinear_arith)
        requires
            k == n * q + m,
            0 <= m < n,
            0 <= k < n * n,
    ;
    assert(q * n == n * q) by (nonlinear_arith);
}

/// Each candidate position on an axis lies on that axis, and there are at
/// most three of them.
proof fn lemma_axis_candidates_in_range(borders: FieldBorders, index: int, n: int)
    requires
        0 <= index < n,
    ensures
        1 <= borders.axis_candidates(index, n).len() <= 3,
        forall|k: int|
            0 <= k < borders.axis_candidates(index, n).len() ==> 0
                <= #[trigger] borders.axis_candidates(index, n)[k] < n,
{
}

/// `0, 1, ..., n - 1`.
fn positions_below(n: usize) -> (r: Vec<usize>)
    ensures
        r@.len() == n,
        forall|x: int| 0 <= x < n ==> #[trigger] r@[x] == x,
{
    let mut r: Vec<usize> = Vec::new();
    let mut k: usize = 0;
    while k < n
        invariant
            0 <= k <= n,
            r@.len() == k,
            forall|x: int| 0 <= x < k ==> #[trigger] r@[x] == x,
        decreases n - k,
    {
        r.push(k);
        k += 1;
    }
    r
}

/// Every pair of an item of `a` with an item of `b`, row-major.
///
/// Relies on itertools' `Itertools::cartesian_product`, which yields each item
/// of `a` paired with every item of `b`, in that order.
#[verifier::external_body]
fn cartesian_product(a: &Vec<usize>, b: &Vec<usize>) -> (r: Vec<(usize, usize)>)
    requires
        a@.len() * b@.len() <= usize::MAX,
    ensures
        r@ == pairs_of(a@, b@),
{
    a.iter().copied().cartesian_product(b.iter().copied()).collect()
}

/// A square field of cells, double-buffered.
///
/// One buffer holds the live generation; the other receives the next
/// generation while the live one is read, and then the two swap roles.
pub struct Field {
    cells_a: Vec<Cell>,
    cells_b: Vec<Cell>,
    cells_pointer: CellsPointer,
    width: Width,
    field_borders: FieldBorders,
}

impl View for Field {
    type V = Grid;

    closed spec fn view(&self) -> Grid {
        let n = self.width.0 as int;
        Grid {
            width: n as nat,
            borders: self.field_borders,
            cells: Seq::new(
                n as nat,
                |r: int| Seq::new(n as nat, |c: int| self.current_cells()[r * n + c].state),
            ),
        }
    }
}

impl Field {
    /// The buffer that holds the live generation.
    closed spec fn current_cells(&self) -> Seq<Cell> {
        match self.cells_pointer {
            CellsPointer::First => self.cells_a@,
            CellsPointer::Second => self.cells_b@,
        }
    }

    /// The buffer that the next generation is written to.
    closed spec fn scratch_cells(&self) -> Seq<Cell> {
        match self.cells_pointer {
            CellsPointer::First => self.cells_b@,
            CellsPointer::Second => self.cells_a@,
        }
    }

    /// The buffer that is not live, laid out by row and column like the view.
    /// After a generation step it holds the generation before.
    pub closed spec fn scratch(&self) -> Seq<Seq<CellState>> {
        let n = self.width.0 as int;
        Seq::new(
            n as nat,
            |r: int| Seq::new(n as nat, |c: int| self.scratch_cells()[r * n + c].state),
        )
    }

    /// Both buffers hold one cell per position of a non-empty square field.
    pub closed spec fn wf(&self) -> bool {
        &&& self.width.0 >= 1
        &&& self.width.0 * self.width.0 <= usize::MAX
        &&& self.cells_a@.len() == self.width.0 * self.width.0
        &&& self.cells_b@.len() == self.width.0 * self.width.0
    }

    /// A field for `params`: `field_size` rows and columns, the edges that
    /// `field_borders` names, and a first generation laid out as
    /// `map_generation` says (a random one drawn from `seed`).
    pub fn new(params: &GameplayParams) -> (r: Result<Field, ConfigurationError>)
        requires
            params.field_size * params.field_size <= usize::MAX,
        ensures
            params.field_size == 0 ==> r == Err::<Field, _>(ConfigurationError::ZeroFieldSize),
            params.field_size != 0 && params.field_size < 3 && params.map_generation
                == MapGeneration::Glider ==> r == Err::<Field, _>(
                ConfigurationError::FieldTooSmallForGlider,
            ),
            r is Ok <==> (params.field_size >= 3 || (params.field_size >= 1
                && params.map_generation == MapGeneration::Random)),
            r matches Ok(f) ==> {
                &&& f.wf()
                &&& f@.well_formed()
                &&& f@.width == params.field_size
                &&& f@.borders == params.field_borders
                &&& params.map_generation == MapGeneration::Glider ==> f@ == Grid::glider(
                    params.field_size as nat,
                    params.field_borders,
                )
                &&& params.map_generation == MapGeneration::Random ==> exists|draws: Seq<u8>|
                    {
                        &&& draws.len() == params.field_size * params.field_size
                        &&& forall|k: int| 0 <= k < draws.len() ==> #[trigger] draws[k] < 2
                        &&& f@ == #[trigger] Grid::drawn(
                            params.field_size as nat,
                            params.field_borders,
                            draws,
                        )
                    }
            },
    {
        let n = params.field_size;
        if n == 0 {
            return Err(ConfigurationError::ZeroFieldSize);
        }
        let width = Width(n);
        let cells = match params.map_generation {
            MapGeneration::Random => Self::map_random(width, params.seed),
            MapGeneration::Glider => {
                if n < 3 {
                    return Err(ConfigurationError::FieldTooSmallForGlider);
                }
                Self::map_glider(width)
            },
        };
        let field = Field {
            cells_a: cells.clone(),
            cells_b: cells,
            cells_pointer: CellsPointer::First,
            width,
            field_borders: params.field_borders,
        };
        proof {
            if params.map_generation == MapGeneration::Random {
                let draws = choose|draws: Seq<u8>|
                    #![trigger draws.len()]
                    {
                        &&& draws.len() == n * n
                        &&& forall|k: int| 0 <= k < draws.len() ==> #[trigger] draws[k] < 2
                        &&& cells@.len() == draws.len()
                        &&& forall|k: int|
                            0 <= k < cells@.len() ==> (#[trigger] cells@[k]).state == cell_of_draw(
                                draws[k],
                            )
                    };
                let g = Grid::drawn(n as nat, params.field_borders, draws);
                assert forall|r: int| 0 <= r < n implies #[trigger] field@.cells[r] =~= g.cells[r] by {
                    assert forall|c: int| 0 <= c < n implies field@.cells[r][c] == g.cells[r][c] by {
                        lemma_index_in_bounds(n as int, r, c);
                        assert(field.current_cells()[r * n + c] == cells@[r * n + c]);
                    }
                }
                assert(field@.cells =~= g.cells);
                assert(field@ == g);
            }
            if params.map_generation == MapGeneration::Glider {
                let g = Grid::glider(n as nat, params.field_borders);
                assert forall|r: int| 0 <= r < n implies #[trigger] field@.cells[r] =~= g.cells[r] by {
                    assert forall|c: int| 0 <= c < n implies field@.cells[r][c] == g.cells[r][c] by {
                        assert(field.current_cells()[r * n + c] == cells@[r * n + c]);
                    }
                }
                assert(field@.cells =~= g.cells);
            }
        }
        Ok(field)
    }

    /// The glider in the top-left corner of an otherwise dead field.
    fn map_glider(width: Width) -> (r: Vec<Cell>)
        requires
            width.0 >= 3,
            width.0 * width.0 <= usize::MAX,
        ensures
            r@.len() == width.0 * width.0,
            forall|row: int, col: int|
                0 <= row < width.0 && 0 <= col < width.0 ==> (#[trigger] r@[row * width.0 + col]).state
                    == if is_glider_cell(row, col) {
                    CellState::Life
                } else {
                    CellState::Dead
                },
    {
        let n = width.0;
        let total = n * n;
        let mut cells: Vec<Cell> = Vec::new();
        let mut k: usize = 0;
        while k < total
            invariant
                0 <= k <= total,
                cells@.len() == k,
                forall|x: int| 0 <= x < k ==> (#[trigger] cells@[x]).state == CellState::Dead,
            decreases total - k,
        {
            cells.push(Cell { state: CellState::Dead });
            k += 1;
        }
        proof {
            assert forall|r: int, c: int| 0 <= r < n && 0 <= c < n implies (
            #[trigger] cells@[r * n + c]).state == CellState::Dead by {
                lemma_index_in_bounds(n as int, r, c);
            }
        }
        let alive: [(usize, usize); 5] = [(0, 1), (1, 2), (2, 0), (2, 1), (2, 2)];
        let mut m: usize = 0;
        while m < 5
            invariant
                n == width.0,
                n >= 3,
                n * n <= usize::MAX,
                cells@.len() == n * n,
                0 <= m <= 5,
                alive@ == seq![(0usize, 1usize), (1, 2), (2, 0), (2, 1), (2, 2)],
                forall|row: int, col: int|
                    0 <= row < n && 0 <= col < n ==> (#[trigger] cells@[row * n + col]).state == if (
                    exists|x: int| 0 <= x < m && alive@[x] == (row as usize, col as usize)) {
                        CellState::Life
                    } else {
                        CellState::Dead
                    },
            decreases 5 - m,
        {
            let (row, col) = alive[m];
            let index = width.calc_index(row, col);
            cells.set(index, Cell { state: CellState::Life });
            proof {
                assert forall|r: int, c: int| 0 <= r < n && 0 <= c < n implies (
                #[trigger] cells@[r * n + c]).state == if (exists|x: int|
                    0 <= x < m + 1 && alive@[x] == (r as usize, c as usize)) {
                    CellState::Life
                } else {
                    CellState::Dead
                } by {
                    lemma_index_in_bounds(n as int, r, c);
                    if r * n + c == index {
                        lemma_index_injective(n as int, r, c, row as int, col as int);
                        assert(alive@[m as int] == (r as usize, c as usize));
                    } else {
                        if (exists|x: int| 0 <= x < m + 1 && alive@[x] == (r as usize, c as usize)) {
                            let x = choose|x: int|
                                0 <= x < m + 1 && alive@[x] == (r as usize, c as usize);
                            assert(x != m);
                        }
                    }
                }
            }
            m += 1;
        }
        proof {
            assert forall|r: int, c: int| 0 <= r < n && 0 <= c < n implies (
            #[trigger] cells@[r * n + c]).state == if is_glider_cell(r, c) {
                CellState::Life
            } else {
                CellState::Dead
            } by {
                if is_glider_cell(r, c) {
                    if r == 0 {
                        assert(alive@[0] == (r as usize, c as usize));
                    } else if r == 1 {
                        assert(alive@[1] == (r as usize, c as usize));
                    } else if c == 0 {
                        assert(alive@[2] == (r as usize, c as usize));
                    } else if c == 1 {
                        assert(alive@[3] == (r as usize, c as usize));
                    } else {
                        assert(alive@[4] == (r as usize, c as usize));
                    }
                }
            }
        }
        cells
    }

    /// A first generation where each cell is drawn at random, after seeding
    /// the generator with `seed`.
    fn map_random(width: Width, seed: u64) -> (r: Vec<Cell>)
        requires
            width.0 * width.0 <= usize::MAX,
        ensures
            exists|draws: Seq<u8>|
                #![trigger draws.len()]
                {
                    &&& draws.len() == width.0 * width.0
                    &&& forall|k: int| 0 <= k < draws.len() ==> #[trigger] draws[k] < 2
                    &&& r@.len() == draws.len()
                    &&& forall|k: int|
                        0 <= k < r@.len() ==> (#[trigger] r@[k]).state == cell_of_draw(draws[k])
                },
    {
        seed_generator(seed);
        let total = width.0 * width.0;
        let mut draws: Vec<u8> = Vec::new();
        let mut k: usize = 0;
        while k < total
            invariant
                0 <= k <= total,
                draws@.len() == k,
                forall|x: int| 0 <= x < k ==> #[trigger] draws@[x] < 2,
            decreases total - k,
        {
            draws.push(random_in_range(0, 2));
            k += 1;
        }
        let cells = Self::cells_from_draws(&draws);
        assert(draws@.len() == total);
        cells
    }

    /// One cell per draw, in order: living where the draw is 0, dead
    /// otherwise.
    pub fn cells_from_draws(draws: &Vec<u8>) -> (r: Vec<Cell>)
        ensures
            r@.len() == draws@.len(),
            forall|k: int|
                0 <= k < r@.len() ==> (#[trigger] r@[k]).state == cell_of_draw(draws@[k]),
    {
        let mut cells: Vec<Cell> = Vec::new();
        let mut k: usize = 0;
        while k < draws.len()
            invariant
                0 <= k <= draws@.len(),
                cells@.len() == k,
                forall|x: int| 0 <= x < k ==> (#[trigger] cells@[x]).state == cell_of_draw(draws@[x]),
            decreases draws@.len() - k,
        {
            let state = match draws[k] {
                0 => CellState::Life,
                _ => CellState::Dead,
            };
            cells.push(Cell { state });
            k += 1;
        }
        cells
    }

    /// The state of the cell at `(row, col)` of the live generation.
    pub fn get(&self, row: usize, col: usize) -> (r: Result<CellState, OutOfBounds>)
        requires
            self.wf(),
        ensures
            r is Ok <==> self@.in_grid(row as int, col as int),
            self@.in_grid(row as int, col as int) ==> r == Ok::<_, OutOfBounds>(
                self@.cells[row as int][col as int],
            ),
            !self@.in_grid(row as int, col as int) ==> r == Err::<CellState, _>(
                OutOfBounds { row, column: col, width: self@.width as usize },
            ),
    {
        let n = self.width.0;
        if row >= n || col >= n {
            return Err(OutOfBounds { row, column: col, width: n });
        }
        let index = self.width.calc_index(row, col);
        Ok(self.current()[index].state)
    }

    /// Sets the cell at `(row, col)` of the live generation to `state`.
    pub fn set(&mut self, row: usize, col: usize, state: CellState) -> (r: Result<(), OutOfBounds>)
        requires
            old(self).wf(),
        ensures
            final(self).wf(),
            r is Ok <==> old(self)@.in_grid(row as int, col as int),
            old(self)@.in_grid(row as int, col as int) ==> final(self)@ == (Grid {
                cells: old(self)@.cells.update(
                    row as int,
                    old(self)@.cells[row as int].update(col as int, state),
                ),
                ..old(self)@
            }),
            !old(self)@.in_grid(row as int, col as int) ==> r == Err::<(), _>(
                OutOfBounds { row, column: col, width: old(self)@.width as usize },
            ) && final(self)@ == old(self)@,
    {
        let n = self.width.0;
        if row >= n || col >= n {
            return Err(OutOfBounds { row, column: col, width: n });
        }
        let index = self.width.calc_index(row, col);
        let ghost before = self@;
        match self.cells_pointer {
            CellsPointer::First => self.cells_a.set(index, Cell { state }),
            CellsPointer::Second => self.cells_b.set(index, Cell { state }),
        }
        proof {
            let expected = before.cells.update(
                row as int,
                before.cells[row as int].update(col as int, state),
            );
            assert forall|r: int| 0 <= r < n implies #[trigger] self@.cells[r] =~= expected[r] by {
                assert forall|c: int| 0 <= c < n implies self@.cells[r][c] == expected[r][c] by {
                    lemma_index_in_bounds(n as int, r, c);
                    if r * n + c == index {
                        lemma_index_injective(n as int, r, c, row as int, col as int);
                    } else if r == row && c == col {
                    }
                }
            }
            assert(self@.cells =~= expected);
        }
        Ok(())
    }

    /// Every cell of the live generation with its row and column, row by row.
    pub fn cells(&self) -> (r: Vec<(usize, usize, CellState)>)
        requires
            self.wf(),
        ensures
            r@.len() == self@.width * self@.width,
            forall|row: int, col: int|
                self@.in_grid(row, col) ==> #[trigger] r@[row * self@.width + col] == (
                    row as usize,
                    col as usize,
                    self@.cells[row][col],
                ),
    {
        let n = self.width.0;
        let current = self.current();
        let mut out: Vec<(usize, usize, CellState)> = Vec::new();
        let mut i: usize = 0;
        while i < n
            invariant
                self.wf(),
                n == self.width.0,
                current@ == self.current_cells(),
                0 <= i <= n,
                out@.len() == i * n,
                forall|row: int, col: int|
                    0 <= row < i && 0 <= col < n ==> #[trigger] out@[row * n + col] == (
                        row as usize,
                        col as usize,
                        self@.cells[row][col],
                    ),
            decreases n - i,
        {
            let mut j: usize = 0;
            while j < n
                invariant
                    self.wf(),
                    n == self.width.0,
                    current@ == self.current_cells(),
                    0 <= i < n,
                    0 <= j <= n,
                    out@.len() == i * n + j,
                    forall|row: int, col: int|
                        0 <= row < n && 0 <= col < n && (row < i || (row == i && col < j))
                            ==> #[trigger] out@[row * n + col] == (
                            row as usize,
                            col as usize,
                            self@.cells[row][col],
                        ),
                decreases n - j,
            {
                let index = self.width.calc_index(i, j);
                out.push((i, j, current[index].state));
                proof {
                    assert forall|row: int, col: int|
                        0 <= row < n && 0 <= col < n && (row < i || (row == i && col < j + 1))
                            implies #[trigger] out@[row * n + col] == (
                            row as usize,
                            col as usize,
                            self@.cells[row][col],
                        ) by {
                        lemma_index_in_bounds(n as int, row, col);
                        if row * n + col == index {
                            lemma_index_injective(n as int, row, col, i as int, j as int);
                        } else if row < i {
                            assert(row * n + col < i * n) by (nonlinear_arith)
                                requires
                                    row < i,
                                    0 <= col < n,
                            ;
                        } else {
                            assert(row == i && col < j) by {
                                if row == i && col == j {
                                }
                            }
                        }
                    }
                }
                j += 1;
            }
            proof {
                assert((i + 1) * n == i * n + n) by (nonlinear_arith);
            }
            i += 1;
        }
        out
    }

    fn current(&self) -> (r: &Vec<Cell>)
        ensures
            r@ == self.current_cells(),
    {
        match self.cells_pointer {
            CellsPointer::First => &self.cells_a,
            CellsPointer::Second => &self.cells_b,
        }
    }

    /// The number of rows, which is also the number of columns.
    pub fn width(&self) -> (r: usize)
        ensures
            r == self@.width,
    {
        self.width.0
    }

    /// Advances the field by one generation.
    ///
    /// Every cell of the next generation is computed from the live buffer
    /// and written to the other one; then the two swap roles.
    pub fn update(&mut self)
        requires
            old(self).wf(),
        ensures
            final(self).wf(),
            final(self)@ == old(self)@.next(),
            final(self).scratch() == old(self)@.cells,
    {
        let n = self.width.0;
        let ghost start = self@;
        let ghost next = start.next();
        let axis = positions_below(n);
        let positions = cartesian_product(&axis, &axis);
        proof {
            assert forall|k: int| 0 <= k < n * n implies #[trigger] positions@[k] == (
                (k / n as int) as usize,
                (k % n as int) as usize,
            ) by {
                lemma_split_index(k, n as int);
            }
        }
        let mut k: usize = 0;
        while k < positions.len()
            invariant
                self.wf(),
                n == self.width.0,
                self.cells_pointer == old(self).cells_pointer,
                self.field_borders == old(self).field_borders,
                self.width.0 == old(self).width.0,
                self.current_cells() == old(self).current_cells(),
                start == old(self)@,
                next == start.next(),
                positions@.len() == n * n,
                forall|x: int|
                    0 <= x < n * n ==> #[trigger] positions@[x] == (
                        (x / n as int) as usize,
                        (x % n as int) as usize,
                    ),
                0 <= k <= n * n,
                forall|x: int|
                    0 <= x < k ==> (#[trigger] self.scratch_cells()[x]).state == next.cells[x / n as int][x
                        % n as int],
            decreases n * n - k,
        {
            let (i, j) = positions[k];
            proof {
                lemma_split_index(k as int, n as int);
            }
            assert(self@ == start);
            let alive_count = self.count_alive_cells(i, j);
            let index = self.width.calc_index(i, j);
            let state = match (self.current()[index].state, alive_count) {
                (CellState::Dead, 3) => CellState::Life,
                (CellState::Life, 2) => CellState::Life,
                (CellState::Life, 3) => CellState::Life,
                _ => CellState::Dead,
            };
            assert(state == next.cells[i as int][j as int]);
            let ghost before = self.scratch_cells();
            match self.cells_pointer {
                CellsPointer::First => self.cells_b.set(index, Cell { state }),
                CellsPointer::Second => self.cells_a.set(index, Cell { state }),
            }
            assert(self.scratch_cells() == before.update(k as int, Cell { state }));
            k += 1;
        }
        let ghost filled = self.scratch_cells();
        self.cells_pointer = self.cells_pointer.swap();
        proof {
            assert(self.current_cells() == filled);
            assert forall|r: int| 0 <= r < n implies #[trigger] self@.cells[r] =~= next.cells[r] by {
                assert forall|c: int| 0 <= c < n implies self@.cells[r][c] == next.cells[r][c] by {
                    lemma_index_in_bounds(n as int, r, c);
                    lemma_fundamental_div_mod_converse(r * n + c, n as int, r, c);
                    assert(filled[r * n + c].state == next.cells[r][c]);
                }
            }
            assert(self@.cells =~= next.cells);
            assert(self.scratch_cells() == old(self).current_cells());
            assert forall|r: int| 0 <= r < n implies #[trigger] self.scratch()[r] =~= start.cells[r] by {}
            assert(self.scratch() =~= start.cells);
        }
    }

    /// Number of living neighbours of the cell at `(i, j)`.
    fn count_alive_cells(&self, i: usize, j: usize) -> (r: usize)
        requires
            self.wf(),
            i < self.width.0,
            j < self.width.0,
        ensures
            r == self@.alive_neighbors(i as int, j as int),
    {
        let n = self.width.0;
        let rows = self.field_borders.create_index_iter(i, n);
        let cols = self.field_borders.create_index_iter(j, n);
        let ghost grid = self@;
        let ghost rows_spec = self.field_borders.axis_candidates(i as int, n as int);
        let ghost cols_spec = self.field_borders.axis_candidates(j as int, n as int);
        let ghost ps = pairs_of(rows_spec, cols_spec);
        proof {
            lemma_axis_candidates_in_range(self.field_borders, i as int, n as int);
            lemma_axis_candidates_in_range(self.field_borders, j as int, n as int);
            assert(rows@.len() * cols@.len() <= 9) by (nonlinear_arith)
                requires
                    rows@.len() <= 3,
                    cols@.len() <= 3,
            ;
        }
        let pairs = cartesian_product(&rows, &cols);
        proof {
            let m = cols@.len() as int;
            let l = rows@.len() as int;
            assert(pairs@.len() == l * m);
            assert forall|k: int| 0 <= k < pairs@.len() implies 0 <= #[trigger] (k / m) < l && 0
                <= k % m < m by {
                assert(0 <= k / m < l && 0 <= k % m < m) by (nonlinear_arith)
                    requires
                        0 <= k < l * m,
                        1 <= m <= 3,
                ;
            }
        }
        let current = self.current();
        let mut count: usize = 0;
        let mut k: usize = 0;
        while k < pairs.len()
            invariant
                self.wf(),
                i < n,
                j < n,
                n == self.width.0,
                grid == self@,
                current@ == self.current_cells(),
                ps == pairs_of(rows_spec, cols_spec),
                pairs@ == pairs_of(rows@, cols@),
                ps.len() == pairs@.len(),
                forall|x: int|
                    0 <= x < pairs@.len() ==> (#[trigger] pairs@[x]).0 as int == ps[x].0
                        && pairs@[x].1 as int == ps[x].1 && pairs@[x].0 < n && pairs@[x].1 < n,
                0 <= k <= pairs@.len(),
                count <= k,
                count == count_alive(
                    grid.board(),
                    distinct_except(ps.take(k as int), (i as int, j as int)),
                ),
            decreases pairs@.len() - k,
        {
            let (a, b) = pairs[k];
            let ghost before = distinct_except(ps.take(k as int), (i as int, j as int));
            let repeated = appears_before(&pairs, k);
            proof {
                assert(ps.take(k as int + 1).drop_last() =~= ps.take(k as int));
                assert(before.push(ps[k as int]).drop_last() =~= before);
                lemma_distinct_except(ps.take(k as int), (i as int, j as int));
                if ps.take(k as int).contains(ps[k as int]) {
                    let x = choose|x: int| 0 <= x < k && ps.take(k as int)[x] == ps[k as int];
                    assert(pairs@[x] == pairs@[k as int]);
                }
                if repeated {
                    let x = choose|x: int| 0 <= x < k && pairs@[x] == pairs@[k as int];
                    assert(ps.take(k as int)[x] == ps[k as int]);
                }
            }
            if !(a == i && b == j) && !repeated {
                let index = self.width.calc_index(a, b);
                if matches!(current[index].state, CellState::Life) {
                    count += 1;
                }
            }
            k += 1;
        }
        proof {
            assert(ps.take(pairs@.len() as int) =~= ps);
        }
        count
    }
}

/// Whether the pair at `k` occurs earlier in `pairs`.
fn appears_before(pairs: &Vec<(usize, usize)>, k: usize) -> (r: bool)
    requires
        k < pairs@.len(),
    ensures
        r == exists|x: int| 0 <= x < k && pairs@[x] == pairs@[k as int],
{
    let (a, b) = pairs[k];
    let mut x: usize = 0;
    while x < k
        invariant
            k < pairs@.len(),
            (a, b) == pairs@[k as int],
            0 <= x <= k,
            forall|y: int| 0 <= y < x ==> pairs@[y] != pairs@[k as int],
        decreases k - x,
    {
        let (c, d) = pairs[x];
        if c == a && d == b {
            return true;
        }
        x += 1;
    }
    false
}

/// Seeds the generator that `random_in_range` draws from.
///
/// Relies on macroquad's `rand::srand`, which reseeds its global generator.
#[verifier::external_body]
fn seed_generator(seed: u64) {
    macroquad::rand::srand(seed)
}

/// A value drawn at random from `low..high`.
///
/// Relies on macroquad's `rand::gen_range` for `u8`, which scales a draw in
/// `[0, 1)` onto `low..high`, so the result is at least `low` and below `high`.
#[verifier::external_body]
fn random_in_range(low: u8, high: u8) -> (r: u8)
    requires
        low < high,
    ensures
        low <= r < high,
{
    macroquad::rand::gen_range(low, high)
}

} // verus!
