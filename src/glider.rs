use vstd::prelude::*;

use crate::field::CellState;
use crate::grid::{
    count_alive, eight_around, is_glider_cell, lemma_connected_neighbor_positions, Grid,
};
use crate::gameplay_params::FieldBorders;

use vstd::arithmetic::div_mod::{lemma_fundamental_div_mod_converse, lemma_small_mod};

verus! {

/// The living cells of the glider `k` generations after the start, for `k`
/// from zero to four; the fourth is the first moved one row down and one
/// column right.
pub open spec fn glider_phase(k: int, r: int, c: int) -> bool {
    if k == 0 {
        is_glider_cell(r, c)
    } else if k == 1 {
        (r == 1 && (c == 0 || c == 2)) || (r == 2 && (c == 1 || c == 2)) || (r == 3 && c == 1)
    } else if k == 2 {
        (r == 1 && c == 2) || (r == 2 && (c == 0 || c == 2)) || (r == 3 && (c == 1 || c == 2))
    } else if k == 3 {
        (r == 1 && c == 1) || (r == 2 && (c == 2 || c == 3)) || (r == 3 && (c == 1 || c == 2))
    } else {
        is_glider_cell(r - 1, c - 1)
    }
}

/// An `n` by `n` grid with connected edges whose living cells are those of
/// phase `k` of the glider.
pub open spec fn phase_grid(n: nat, k: int) -> Grid {
    Grid {
        width: n,
        borders: FieldBorders::Connected,
        cells: Seq::new(
            n,
            |r: int|
                Seq::new(
                    n,
                    |c: int|
                        if glider_phase(k, r, c) {
                            CellState::Life
                        } else {
                            CellState::Dead
                        },
                ),
        ),
    }
}

/// `g` moved `dr` rows down and `dc` columns right, across the edges as on
/// a torus.
pub open spec fn shifted(g: Grid, dr: int, dc: int) -> Grid {
    Grid {
        cells: Seq::new(
            g.width,
            |r: int|
                Seq::new(
                    g.width,
                    |c: int| g.cells[(r - dr) % (g.width as int)][(c - dc) % (g.width as int)],
                ),
        ),
        ..g
    }
}

/// 1 where `board` holds a living cell at `p`, 0 elsewhere.
pub open spec fn alive_at(board: spec_fn(int, int) -> bool, p: (int, int)) -> nat {
    if board(p.0, p.1) {
        1
    } else {
        0
    }
}

proof fn lemma_count_eight(board: spec_fn(int, int) -> bool, ps: Seq<(int, int)>)
    requires
        ps.len() == 8,
    ensures
        count_alive(board, ps) == alive_at(board, ps[0]) + alive_at(board, ps[1]) + alive_at(
            board,
            ps[2],
        ) + alive_at(board, ps[3]) + alive_at(board, ps[4]) + alive_at(board, ps[5]) + alive_at(
            board,
            ps[6],
        ) + alive_at(board, ps[7]),
{
    reveal_with_fuel(count_alive, 9);
    assert(ps.drop_last() =~= ps.take(7));
    assert(ps.take(7).drop_last() =~= ps.take(6));
    assert(ps.take(6).drop_last() =~= ps.take(5));
    assert(ps.take(5).drop_last() =~= ps.take(4));
    assert(ps.take(4).drop_last() =~= ps.take(3));
    assert(ps.take(3).drop_last() =~= ps.take(2));
    assert(ps.take(2).drop_last() =~= ps.take(1));
    assert(ps.take(1).drop_last() =~= ps.take(0));
}

/// One generation takes each phase of the glider to the next one.
proof fn lemma_phase_step(n: nat, k: int)
    requires
        n >= 10,
        0 <= k < 4,
    ensures
        phase_grid(n, k).next() == phase_grid(n, k + 1),
{
    let g = phase_grid(n, k);
    let h = phase_grid(n, k + 1);
    assert forall|r: int, c: int| 0 <= r < n && 0 <= c < n implies #[trigger] g.next().cells[r][c]
        == h.cells[r][c] by {
        lemma_connected_neighbor_positions(n as int, r, c);
        let ps = eight_around(n as int, r, c);
        lemma_count_eight(g.board(), ps);
    }
    assert forall|r: int| 0 <= r < n implies #[trigger] g.next().cells[r] =~= h.cells[r] by {}
    assert(g.next().cells =~= h.cells);
}

/// On a field of at least ten by ten with connected edges, the glider that a
/// new field starts with has, four generations later, its own shape again,
/// moved one row down and one column right.
pub proof fn lemma_glider_translation(n: nat)
    requires
        n >= 10,
    ensures
        Grid::glider(n, FieldBorders::Connected).generations(4) == shifted(
            Grid::glider(n, FieldBorders::Connected),
            1,
            1,
        ),
{
    let g = Grid::glider(n, FieldBorders::Connected);
    assert forall|r: int| 0 <= r < n implies #[trigger] g.cells[r] =~= phase_grid(n, 0).cells[r] by {}
    assert(g.cells =~= phase_grid(n, 0).cells);
    assert(g == phase_grid(n, 0));
    lemma_phase_step(n, 0);
    lemma_phase_step(n, 1);
    lemma_phase_step(n, 2);
    lemma_phase_step(n, 3);
    assert(g.generations(0) == g);
    assert(g.generations(1) == phase_grid(n, 1));
    assert(g.generations(2) == phase_grid(n, 2));
    assert(g.generations(3) == phase_grid(n, 3));
    assert(g.generations(4) == phase_grid(n, 4));
    let s = shifted(g, 1, 1);
    let m = n as int;
    lemma_fundamental_div_mod_converse(-1, m, -1, m - 1);
    assert forall|r: int, c: int| 0 <= r < n && 0 <= c < n implies #[trigger] s.cells[r][c]
        == phase_grid(n, 4).cells[r][c] by {
        if r >= 1 {
            lemma_small_mod((r - 1) as nat, n);
        }
        if c >= 1 {
            lemma_small_mod((c - 1) as nat, n);
        }
    }
    assert forall|r: int| 0 <= r < n implies #[trigger] s.cells[r] =~= phase_grid(n, 4).cells[r] by {}
    assert(s.cells =~= phase_grid(n, 4).cells);
}

} // verus!
