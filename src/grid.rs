use vstd::prelude::*;

use crate::field::CellState;
use crate::gameplay_params::FieldBorders;

use vstd::arithmetic::div_mod::lemma_fundamental_div_mod_converse;

verus! {

/// The life rule: a dead cell with exactly three living neighbours is born,
/// a living cell with two or three living neighbours survives, every other
/// cell is dead in the next generation.
pub open spec fn life_rule(state: CellState, alive: nat) -> CellState {
    match state {
        CellState::Dead => if alive == 3 {
            CellState::Life
        } else {
            CellState::Dead
        },
        CellState::Life => if alive == 2 || alive == 3 {
            CellState::Life
        } else {
            CellState::Dead
        },
    }
}

/// Every pair of an item of `a` with an item of `b`, row-major: all pairs
/// with `a[0]` first, then those with `a[1]`, and so on.
pub open spec fn pairs_of<A>(a: Seq<A>, b: Seq<A>) -> Seq<(A, A)> {
    Seq::new(a.len() * b.len(), |k: int| (a[k / b.len() as int], b[k % b.len() as int]))
}

/// The positions of `ps` other than `p`, each once, in the order of their
/// first occurrence.
pub open spec fn distinct_except(ps: Seq<(int, int)>, p: (int, int)) -> Seq<(int, int)>
    decreases ps.len(),
{
    if ps.len() == 0 {
        ps
    } else {
        let rest = distinct_except(ps.drop_last(), p);
        if ps.last() == p || rest.contains(ps.last()) {
            rest
        } else {
            rest.push(ps.last())
        }
    }
}

/// The positions around `(r, c)` on an `n` by `n` field: every combination
/// of a row candidate with a column candidate, except `(r, c)` itself, each
/// position once.
pub open spec fn neighbor_positions(borders: FieldBorders, n: int, r: int, c: int) -> Seq<
    (int, int),
> {
    distinct_except(pairs_of(borders.axis_candidates(r, n), borders.axis_candidates(c, n)), (r, c))
}

/// What `distinct_except` keeps: exactly the positions of `ps` other than
/// `p`, none twice.
pub proof fn lemma_distinct_except(ps: Seq<(int, int)>, p: (int, int))
    ensures
        forall|x: (int, int)| #[trigger] distinct_except(ps, p).contains(x) <==> (ps.contains(x) && x != p),
        distinct_except(ps, p).no_duplicates(),
    decreases ps.len(),
{
    if ps.len() > 0 {
        let init = ps.drop_last();
        lemma_distinct_except(init, p);
        let rest = distinct_except(init, p);
        assert forall|x: (int, int)| ps.contains(x) <==> (init.contains(x) || x == ps.last()) by {
            if ps.contains(x) {
                let i = choose|i: int| 0 <= i < ps.len() && ps[i] == x;
                if i < ps.len() - 1 {
                    assert(init[i] == x);
                }
            }
            if init.contains(x) {
                let i = choose|i: int| 0 <= i < init.len() && init[i] == x;
                assert(ps[i] == x);
            }
            if x == ps.last() {
                assert(ps[ps.len() - 1] == x);
            }
        }
        if !(ps.last() == p || rest.contains(ps.last())) {
            let q = rest.push(ps.last());
            assert forall|x: (int, int)| q.contains(x) <==> (rest.contains(x) || x == ps.last()) by {
                if q.contains(x) {
                    let i = choose|i: int| 0 <= i < q.len() && q[i] == x;
                    if i < rest.len() {
                        assert(rest[i] == x);
                    }
                }
                if rest.contains(x) {
                    let i = choose|i: int| 0 <= i < rest.len() && rest[i] == x;
                    assert(q[i] == x);
                }
                if x == ps.last() {
                    assert(q[rest.len() as int] == x);
                }
            }
            assert forall|i: int, j: int| 0 <= i < q.len() && 0 <= j < q.len() && i != j implies q[i]
                != q[j] by {
                if i == rest.len() {
                    assert(rest.contains(q[j]));
                } else if j == rest.len() {
                    assert(rest.contains(q[i]));
                }
            }
        }
    }
}

/// How many of the positions `ps` hold a living cell of `board`.
pub open spec fn count_alive(board: spec_fn(int, int) -> bool, ps: Seq<(int, int)>) -> nat
    decreases ps.len(),
{
    if ps.len() == 0 {
        0
    } else {
        count_alive(board, ps.drop_last()) + if board(ps.last().0, ps.last().1) {
            1nat
        } else {
            0nat
        }
    }
}

/// The cell that a random draw gives: living for 0, dead otherwise.
pub open spec fn cell_of_draw(draw: u8) -> CellState {
    if draw == 0 {
        CellState::Life
    } else {
        CellState::Dead
    }
}

/// Whether `(r, c)` belongs to the glider that a new field starts with.
pub open spec fn is_glider_cell(r: int, c: int) -> bool {
    (r == 0 && c == 1) || (r == 1 && c == 2) || (r == 2 && (c == 0 || c == 1 || c == 2))
}

/// A field as a value: its width, its edges, and the state of each cell,
/// indexed by row and then by column.
pub struct Grid {
    pub width: nat,
    pub borders: FieldBorders,
    pub cells: Seq<Seq<CellState>>,
}

impl Grid {
    pub open spec fn well_formed(self) -> bool {
        &&& self.width >= 1
        &&& self.cells.len() == self.width
        &&& forall|r: int| 0 <= r < self.width ==> (#[trigger] self.cells[r]).len() == self.width
    }

    pub open spec fn in_grid(self, r: int, c: int) -> bool {
        0 <= r < self.width && 0 <= c < self.width
    }

    pub open spec fn is_alive(self, r: int, c: int) -> bool {
        self.cells[r][c] == CellState::Life
    }

    /// Which positions hold a living cell.
    pub open spec fn board(self) -> spec_fn(int, int) -> bool {
        |r: int, c: int| self.is_alive(r, c)
    }

    /// Number of living cells among the neighbour positions of `(r, c)`.
    pub open spec fn alive_neighbors(self, r: int, c: int) -> nat {
        count_alive(self.board(), neighbor_positions(self.borders, self.width as int, r, c))
    }

    /// The next generation: every cell at once, each from this generation
    /// alone.
    pub open spec fn next(self) -> Grid {
        Grid {
            width: self.width,
            borders: self.borders,
            cells: Seq::new(
                self.width,
                |r: int|
                    Seq::new(
                        self.width,
                        |c: int| life_rule(self.cells[r][c], self.alive_neighbors(r, c)),
                    ),
            ),
        }
    }

    /// The grid after `k` generations.
    pub open spec fn generations(self, k: nat) -> Grid
        decreases k,
    {
        if k == 0 {
            self
        } else {
            self.generations((k - 1) as nat).next()
        }
    }

    /// An `n` by `n` grid whose cell `(r, c)` comes from draw `r * n + c`.
    pub open spec fn drawn(n: nat, borders: FieldBorders, draws: Seq<u8>) -> Grid {
        Grid {
            width: n,
            borders,
            cells: Seq::new(
                n,
                |r: int| Seq::new(n, |c: int| cell_of_draw(draws[r * (n as int) + c])),
            ),
        }
    }

    /// An `n` by `n` grid holding the glider in its top-left corner.
    pub open spec fn glider(n: nat, borders: FieldBorders) -> Grid {
        Grid {
            width: n,
            borders,
            cells: Seq::new(
                n,
                |r: int|
                    Seq::new(
                        n,
                        |c: int|
                            if is_glider_cell(r, c) {
                                CellState::Life
                            } else {
                                CellState::Dead
                            },
                    ),
            ),
        }
    }
}

/// A grid keeps its width and its edges through any number of generations,
/// and a well-formed one stays well formed.
pub proof fn lemma_generations_keep_shape(g: Grid, k: nat)
    ensures
        g.generations(k).width == g.width,
        g.generations(k).borders == g.borders,
        g.well_formed() ==> g.generations(k).well_formed(),
    decreases k,
{
    if k > 0 {
        lemma_generations_keep_shape(g, (k - 1) as nat);
    }
}

/// On connected edges, the row (or column) before `index`: the last one
/// before the first.
pub open spec fn wrapped_previous(index: int, n: int) -> int {
    if index == 0 {
        n - 1
    } else {
        index - 1
    }
}

/// On connected edges, the row (or column) after `index`: the first one
/// after the last.
pub open spec fn wrapped_following(index: int, n: int) -> int {
    if index == n - 1 {
        0
    } else {
        index + 1
    }
}

/// The eight positions around `(r, c)` on an `n` by `n` field with
/// connected edges, row by row.
pub open spec fn eight_around(n: int, r: int, c: int) -> Seq<(int, int)> {
    let pr = wrapped_previous(r, n);
    let nr = wrapped_following(r, n);
    let pc = wrapped_previous(c, n);
    let nc = wrapped_following(c, n);
    seq![(pr, pc), (pr, c), (pr, nc), (r, pc), (r, nc), (nr, pc), (nr, c), (nr, nc)]
}

proof fn lemma_connected_axis(index: int, n: int)
    requires
        n >= 3,
        0 <= index < n,
    ensures
        FieldBorders::Connected.axis_candidates(index, n) == seq![
            wrapped_previous(index, n),
            index,
            wrapped_following(index, n),
        ],
{
    assert(FieldBorders::Connected.axis_candidates(index, n) =~= seq![
        wrapped_previous(index, n),
        index,
        wrapped_following(index, n),
    ]);
}

/// With connected edges and at least three rows, the neighbour positions of
/// a cell are exactly the eight around it.
pub proof fn lemma_connected_neighbor_positions(n: int, r: int, c: int)
    requires
        n >= 3,
        0 <= r < n,
        0 <= c < n,
    ensures
        neighbor_positions(FieldBorders::Connected, n, r, c) == eight_around(n, r, c),
{
    lemma_connected_axis(r, n);
    lemma_connected_axis(c, n);
    let pr = wrapped_previous(r, n);
    let nr = wrapped_following(r, n);
    let pc = wrapped_previous(c, n);
    let nc = wrapped_following(c, n);
    let rows = seq![pr, r, nr];
    let cols = seq![pc, c, nc];
    assert(rows.len() * cols.len() == 9) by (nonlinear_arith)
        requires
            rows.len() == 3,
            cols.len() == 3,
    ;
    let ps = pairs_of(rows, cols);
    let all = seq![(pr, pc), (pr, c), (pr, nc), (r, pc), (r, c), (r, nc), (nr, pc), (nr, c), (nr, nc)];
    assert(ps.len() == 9);
    assert(ps[0] == all[0] && ps[1] == all[1] && ps[2] == all[2]);
    assert(ps[3] == all[3] && ps[4] == all[4] && ps[5] == all[5]);
    assert(ps[6] == all[6] && ps[7] == all[7] && ps[8] == all[8]);
    assert(ps =~= all);
    let center = (r, c);
    assert forall|i: int, j: int| 0 <= i < 9 && 0 <= j < 9 && i != j implies all[i] != all[j] by {}
    assert(all.no_duplicates());
    assert(all.take(9) =~= all);
    lemma_distinct_step(all, 0, center);
    lemma_distinct_step(all, 1, center);
    lemma_distinct_step(all, 2, center);
    lemma_distinct_step(all, 3, center);
    lemma_distinct_step(all, 4, center);
    lemma_distinct_step(all, 5, center);
    lemma_distinct_step(all, 6, center);
    lemma_distinct_step(all, 7, center);
    lemma_distinct_step(all, 8, center);
    assert(distinct_except(all.take(0), center) =~= seq![]);
    assert(distinct_except(all, center) =~= eight_around(n, r, c));
}

/// Over a sequence without repeats, one more item is kept exactly when it is
/// not `p`.
proof fn lemma_distinct_step(s: Seq<(int, int)>, k: int, p: (int, int))
    requires
        s.no_duplicates(),
        0 <= k < s.len(),
    ensures
        distinct_except(s.take(k + 1), p) == if s[k] == p {
            distinct_except(s.take(k), p)
        } else {
            distinct_except(s.take(k), p).push(s[k])
        },
{
    assert(s.take(k + 1).drop_last() =~= s.take(k));
    lemma_distinct_except(s.take(k), p);
    if s.take(k).contains(s[k]) {
        let i = choose|i: int| 0 <= i < k && s.take(k)[i] == s[k];
        assert(s[i] == s[k]);
    }
}

/// With connected edges on a field of at least three by three, every cell
/// has exactly eight neighbour positions: all distinct, none of them the
/// cell itself, all on the field.
pub proof fn lemma_eight_distinct_neighbors(n: int, r: int, c: int)
    requires
        n >= 3,
        0 <= r < n,
        0 <= c < n,
    ensures
        neighbor_positions(FieldBorders::Connected, n, r, c).len() == 8,
        neighbor_positions(FieldBorders::Connected, n, r, c).no_duplicates(),
        forall|k: int|
            0 <= k < 8 ==> #[trigger] neighbor_positions(FieldBorders::Connected, n, r, c)[k] != (
                r,
                c,
            ),
        forall|k: int|
            0 <= k < 8 ==> 0 <= #[trigger] neighbor_positions(FieldBorders::Connected, n, r, c)[k].0
                < n && 0 <= neighbor_positions(FieldBorders::Connected, n, r, c)[k].1 < n,
{
    lemma_connected_neighbor_positions(n, r, c);
    let ps = eight_around(n, r, c);
    assert forall|i: int, j: int| 0 <= i < 8 && 0 <= j < 8 && i != j implies ps[i] != ps[j] by {
        assert(ps[0] == (wrapped_previous(r, n), wrapped_previous(c, n)));
    }
}

/// The neighbour positions of `(r, c)` are, each once, the combinations of
/// a row candidate with a column candidate other than `(r, c)` itself.
pub proof fn lemma_neighbor_positions_members(borders: FieldBorders, n: int, r: int, c: int)
    requires
        0 <= r < n,
        0 <= c < n,
    ensures
        forall|x: (int, int)| #[trigger] neighbor_positions(borders, n, r, c).contains(x) <==> (
        borders.axis_candidates(r, n).contains(x.0) && borders.axis_candidates(c, n).contains(x.1)
            && x != (r, c)),
        neighbor_positions(borders, n, r, c).no_duplicates(),
{
    let a = borders.axis_candidates(r, n);
    let b = borders.axis_candidates(c, n);
    let ps = pairs_of(a, b);
    let l = a.len() as int;
    let m = b.len() as int;
    assert(1 <= l <= 3 && 1 <= m <= 3);
    lemma_distinct_except(ps, (r, c));
    assert forall|x: (int, int)| ps.contains(x) <==> (a.contains(x.0) && b.contains(x.1)) by {
        if ps.contains(x) {
            let k = choose|k: int| 0 <= k < ps.len() && ps[k] == x;
            assert(0 <= k / m < l && 0 <= k % m < m) by (nonlinear_arith)
                requires
                    0 <= k < l * m,
                    1 <= m <= 3,
            ;
            assert(a[k / m] == x.0 && b[k % m] == x.1);
        }
        if a.contains(x.0) && b.contains(x.1) {
            let i = choose|i: int| 0 <= i < l && a[i] == x.0;
            let j = choose|j: int| 0 <= j < m && b[j] == x.1;
            let k = i * m + j;
            assert(0 <= k < l * m) by (nonlinear_arith)
                requires
                    k == i * m + j,
                    0 <= i < l,
                    0 <= j < m,
            ;
            lemma_fundamental_div_mod_converse(k, m, i, j);
            assert(ps[k] == x);
        }
    }
}

/// On a two by two field with connected edges, the neighbour positions of a
/// cell are the three other cells, each once.
pub proof fn lemma_two_by_two_neighbors(r: int, c: int)
    requires
        0 <= r < 2,
        0 <= c < 2,
    ensures
        forall|x: (int, int)| #[trigger] neighbor_positions(FieldBorders::Connected, 2, r, c).contains(x)
            <==> (0 <= x.0 < 2 && 0 <= x.1 < 2 && x != (r, c)),
        neighbor_positions(FieldBorders::Connected, 2, r, c).no_duplicates(),
{
    lemma_neighbor_positions_members(FieldBorders::Connected, 2, r, c);
    let a = FieldBorders::Connected.axis_candidates(r, 2);
    let b = FieldBorders::Connected.axis_candidates(c, 2);
    assert(a[0] == 1 - r && a[1] == r);
    assert(b[0] == 1 - c && b[1] == c);
    assert forall|v: int| a.contains(v) <==> 0 <= v < 2 by {
        if v == r {
            assert(a[1] == v);
        } else if v == 1 - r {
            assert(a[0] == v);
        }
    }
    assert forall|v: int| b.contains(v) <==> 0 <= v < 2 by {
        if v == c {
            assert(b[1] == v);
        } else if v == 1 - c {
            assert(b[0] == v);
        }
    }
}

/// On a field of a single cell, whatever its edges, the cell has no
/// neighbour position: it is never counted as its own neighbour.
pub proof fn lemma_single_cell_has_no_neighbors(borders: FieldBorders)
    ensures
        neighbor_positions(borders, 1, 0, 0).len() == 0,
{
    let axis = borders.axis_candidates(0, 1);
    let ps = pairs_of(axis, axis);
    assert(forall|k: int| 0 <= k < axis.len() ==> axis[k] == 0);
    assert(axis.len() == 1 || axis.len() == 3);
    assert forall|k: int| 0 <= k < ps.len() implies ps[k] == (0int, 0int) by {
        let m = axis.len() as int;
        assert(0 <= k / m < m && 0 <= k % m < m) by (nonlinear_arith)
            requires
                0 <= k < m * m,
                1 <= m <= 3,
        ;
    }
    let q = distinct_except(ps, (0int, 0int));
    lemma_distinct_except(ps, (0int, 0int));
    if q.len() > 0 {
        assert(q.contains(q[0]));
    }
}

} // verus!
