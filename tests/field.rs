use game_of_life::error::{ConfigurationError, OutOfBounds};
use game_of_life::field::{CellState, CellsPointer, Field};
use game_of_life::gameplay_params::{CellShape, FieldBorders, GameplayParams, MapGeneration};

fn params(size: usize, borders: FieldBorders, map: MapGeneration) -> GameplayParams {
    GameplayParams {
        milli_updates_per_sec: 1_000,
        field_size: size,
        cell_shape: CellShape::Square,
        field_borders: borders,
        map_generation: map,
        seed: 7,
    }
}

/// A field of the given size with exactly the listed cells alive.
fn field_with(size: usize, borders: FieldBorders, alive: &[(usize, usize)]) -> Field {
    let mut f = Field::new(&params(size, borders, MapGeneration::Random)).unwrap();
    for r in 0..size {
        for c in 0..size {
            f.set(r, c, CellState::Dead).unwrap();
        }
    }
    for &(r, c) in alive {
        f.set(r, c, CellState::Life).unwrap();
    }
    f
}

fn alive_cells(f: &Field) -> Vec<(usize, usize)> {
    f.cells()
        .into_iter()
        .filter(|&(_, _, s)| s == CellState::Life)
        .map(|(r, c, _)| (r, c))
        .collect()
}

#[test]
fn index_candidates_limited_edges() {
    let b = FieldBorders::Limited;
    assert_eq!(b.create_index_iter(0, 5), vec![0, 1]);
    assert_eq!(b.create_index_iter(2, 5), vec![1, 2, 3]);
    assert_eq!(b.create_index_iter(4, 5), vec![3, 4]);
    assert_eq!(b.create_index_iter(0, 1), vec![0]);
}

#[test]
fn index_candidates_connected_edges() {
    let b = FieldBorders::Connected;
    assert_eq!(b.create_index_iter(0, 5), vec![4, 0, 1]);
    assert_eq!(b.create_index_iter(4, 5), vec![3, 4, 0]);
    assert_eq!(b.create_index_iter(2, 5), vec![1, 2, 3]);
}

#[test]
fn index_candidates_connected_tiny_axes_repeat() {
    let b = FieldBorders::Connected;
    assert_eq!(b.create_index_iter(0, 1), vec![0, 0, 0]);
    assert_eq!(b.create_index_iter(0, 2), vec![1, 0, 1]);
    assert_eq!(b.create_index_iter(1, 2), vec![0, 1, 0]);
    let l = FieldBorders::Limited;
    assert_eq!(l.create_index_iter(0, 2), vec![0, 1]);
    assert_eq!(l.create_index_iter(1, 2), vec![0, 1]);
}

#[test]
fn index_candidates_on_a_long_axis() {
    assert_eq!(FieldBorders::Limited.create_index_iter(0, 50), vec![0, 1]);
    assert_eq!(FieldBorders::Limited.create_index_iter(49, 50), vec![48, 49]);
    assert_eq!(FieldBorders::Connected.create_index_iter(0, 50), vec![49, 0, 1]);
    assert_eq!(FieldBorders::Connected.create_index_iter(49, 50), vec![48, 49, 0]);
}

#[test]
fn draws_of_zero_give_living_cells() {
    let cells = Field::cells_from_draws(&vec![0, 1, 1, 0, 0]);
    let states: Vec<CellState> = cells.iter().map(|c| c.state).collect();
    let l = CellState::Life;
    let d = CellState::Dead;
    assert_eq!(states, vec![l, d, d, l, l]);
    assert!(Field::cells_from_draws(&vec![]).is_empty());
}

#[test]
fn zero_size_is_rejected() {
    for map in [MapGeneration::Random, MapGeneration::Glider] {
        let r = Field::new(&params(0, FieldBorders::Connected, map));
        assert_eq!(r.err(), Some(ConfigurationError::ZeroFieldSize));
    }
}

#[test]
fn glider_needs_three_by_three() {
    let r = Field::new(&params(2, FieldBorders::Limited, MapGeneration::Glider));
    assert_eq!(r.err(), Some(ConfigurationError::FieldTooSmallForGlider));
    assert!(Field::new(&params(2, FieldBorders::Limited, MapGeneration::Random)).is_ok());
    assert!(Field::new(&params(1, FieldBorders::Limited, MapGeneration::Random)).is_ok());
    assert!(Field::new(&params(3, FieldBorders::Limited, MapGeneration::Glider)).is_ok());
}

#[test]
fn glider_layout() {
    let f = Field::new(&params(50, FieldBorders::Connected, MapGeneration::Glider)).unwrap();
    assert_eq!(f.width(), 50);
    assert_eq!(alive_cells(&f), vec![(0, 1), (1, 2), (2, 0), (2, 1), (2, 2)]);
}

#[test]
fn size_is_kept_through_generations() {
    for n in [1usize, 2, 3, 7, 50] {
        let mut f = Field::new(&params(n, FieldBorders::Connected, MapGeneration::Random)).unwrap();
        for _ in 0..5 {
            assert_eq!(f.width(), n);
            f.update();
        }
        assert_eq!(f.width(), n);
        assert_eq!(f.cells().len(), n * n);
    }
}

#[test]
fn reading_twice_gives_the_same_cell() {
    let f = Field::new(&params(12, FieldBorders::Limited, MapGeneration::Random)).unwrap();
    for r in 0..12 {
        for c in 0..12 {
            assert_eq!(f.get(r, c), f.get(r, c));
        }
    }
}

#[test]
fn out_of_bounds_reads_and_writes() {
    let mut f = Field::new(&params(4, FieldBorders::Limited, MapGeneration::Glider)).unwrap();
    let e = OutOfBounds { row: 4, column: 0, width: 4 };
    assert_eq!(f.get(4, 0), Err(e));
    assert_eq!(f.get(0, 9), Err(OutOfBounds { row: 0, column: 9, width: 4 }));
    assert_eq!(f.set(4, 0, CellState::Life), Err(e));
    assert_eq!(alive_cells(&f), vec![(0, 1), (1, 2), (2, 0), (2, 1), (2, 2)]);
}

#[test]
fn set_changes_one_cell() {
    let mut f = Field::new(&params(4, FieldBorders::Limited, MapGeneration::Glider)).unwrap();
    assert_eq!(f.set(3, 3, CellState::Life), Ok(()));
    assert_eq!(f.set(0, 1, CellState::Dead), Ok(()));
    assert_eq!(alive_cells(&f), vec![(1, 2), (2, 0), (2, 1), (2, 2), (3, 3)]);
}

#[test]
fn cells_are_listed_row_by_row() {
    let f = Field::new(&params(3, FieldBorders::Limited, MapGeneration::Glider)).unwrap();
    let cells = f.cells();
    assert_eq!(cells.len(), 9);
    for (k, &(r, c, s)) in cells.iter().enumerate() {
        assert_eq!((r, c), (k / 3, k % 3));
        assert_eq!(Ok(s), f.get(r, c));
    }
}

#[test]
fn plus_shape_on_limited_three_by_three() {
    let mut f = field_with(
        3,
        FieldBorders::Limited,
        &[(0, 1), (1, 0), (1, 1), (1, 2), (2, 1)],
    );
    f.update();
    let l = CellState::Life;
    let d = CellState::Dead;
    let expected = [[l, l, l], [l, d, l], [l, l, l]];
    for r in 0..3 {
        for c in 0..3 {
            assert_eq!(f.get(r, c), Ok(expected[r][c]), "cell ({}, {})", r, c);
        }
    }
}

#[test]
fn blinker_oscillates() {
    let mut f = field_with(5, FieldBorders::Limited, &[(2, 1), (2, 2), (2, 3)]);
    f.update();
    assert_eq!(alive_cells(&f), vec![(1, 2), (2, 2), (3, 2)]);
    f.update();
    assert_eq!(alive_cells(&f), vec![(2, 1), (2, 2), (2, 3)]);
}

#[test]
fn block_is_still() {
    let mut f = field_with(4, FieldBorders::Limited, &[(1, 1), (1, 2), (2, 1), (2, 2)]);
    f.update();
    assert_eq!(alive_cells(&f), vec![(1, 1), (1, 2), (2, 1), (2, 2)]);
}

#[test]
fn limited_corner_has_three_neighbours() {
    // (0, 0) sees only (0, 1), (1, 0) and (1, 1): three living ones, so it is born.
    let mut f = field_with(4, FieldBorders::Limited, &[(0, 1), (1, 0), (1, 1)]);
    f.update();
    assert_eq!(f.get(0, 0), Ok(CellState::Life));
    // Across the edges nothing is seen: (3, 3) stays dead.
    assert_eq!(f.get(3, 3), Ok(CellState::Dead));
}

#[test]
fn connected_corner_sees_across_edges() {
    let mut f = field_with(5, FieldBorders::Connected, &[(4, 4), (0, 4), (4, 0)]);
    f.update();
    assert_eq!(f.get(0, 0), Ok(CellState::Life));
    let mut g = field_with(5, FieldBorders::Limited, &[(4, 4), (0, 4), (4, 0)]);
    g.update();
    assert_eq!(g.get(0, 0), Ok(CellState::Dead));
}

#[test]
fn single_cell_is_not_its_own_neighbour() {
    let mut f = field_with(1, FieldBorders::Connected, &[(0, 0)]);
    f.update();
    assert_eq!(f.get(0, 0), Ok(CellState::Dead));
    let mut g = field_with(1, FieldBorders::Connected, &[]);
    g.update();
    assert_eq!(g.get(0, 0), Ok(CellState::Dead));
}

#[test]
fn two_by_two_connected_counts_each_position_once() {
    // Each cell has three distinct neighbour positions: the three other cells.
    // Counted once each, three living ones give a birth, and a full field
    // keeps three living neighbours per cell, so it stays as it is.
    let mut f = field_with(2, FieldBorders::Connected, &[(0, 1), (1, 0), (1, 1)]);
    f.update();
    assert_eq!(alive_cells(&f), vec![(0, 0), (0, 1), (1, 0), (1, 1)]);
    f.update();
    assert_eq!(alive_cells(&f), vec![(0, 0), (0, 1), (1, 0), (1, 1)]);
}

#[test]
fn three_by_three_connected_has_eight_neighbours() {
    // On a 3x3 torus every other cell is a neighbour of the centre, so with
    // all eight alive the centre dies of overcrowding and nothing is born.
    let ring = [(0, 0), (0, 1), (0, 2), (1, 0), (1, 2), (2, 0), (2, 1), (2, 2)];
    let mut f = field_with(3, FieldBorders::Connected, &ring);
    f.set(1, 1, CellState::Life).unwrap();
    f.update();
    assert_eq!(alive_cells(&f), Vec::<(usize, usize)>::new());
}

fn glider_moves_by_one_after_four(n: usize) {
    let mut f = Field::new(&params(n, FieldBorders::Connected, MapGeneration::Glider)).unwrap();
    for _ in 0..4 {
        f.update();
    }
    assert_eq!(alive_cells(&f), vec![(1, 2), (2, 3), (3, 1), (3, 2), (3, 3)]);
}

#[test]
fn glider_translates_on_ten_by_ten() {
    glider_moves_by_one_after_four(10);
}

#[test]
fn glider_translates_on_fifty_by_fifty() {
    glider_moves_by_one_after_four(50);
}

#[test]
fn glider_wraps_around_the_torus() {
    // Forty generations on a 10x10 torus move the glider ten rows and ten
    // columns: back where it started.
    let mut f = Field::new(&params(10, FieldBorders::Connected, MapGeneration::Glider)).unwrap();
    for _ in 0..40 {
        f.update();
    }
    assert_eq!(alive_cells(&f), vec![(0, 1), (1, 2), (2, 0), (2, 1), (2, 2)]);
}

#[test]
fn random_map_uses_the_seed() {
    let p = params(50, FieldBorders::Connected, MapGeneration::Random);
    let a = Field::new(&p).unwrap().cells();
    let b = Field::new(&p).unwrap().cells();
    assert_eq!(a, b);
    let alive = a.iter().filter(|&&(_, _, s)| s == CellState::Life).count();
    assert!(alive > 0 && alive < 2500, "alive: {}", alive);
    let other = Field::new(&GameplayParams { seed: 8, ..p }).unwrap().cells();
    assert_ne!(a, other);
}

#[test]
fn cells_pointer_swaps() {
    assert_eq!(CellsPointer::First.swap(), CellsPointer::Second);
    assert_eq!(CellsPointer::Second.swap(), CellsPointer::First);
}
