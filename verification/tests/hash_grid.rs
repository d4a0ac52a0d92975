use fluid_2d::hash_grid::SpatialGrid;

type Pos = (f32, f32);

fn cell_of(p: Pos, cell_size: f32) -> (i32, i32) {
    ((p.0 / cell_size).floor() as i32, (p.1 / cell_size).floor() as i32)
}

fn build(cells: &[(i32, i32)]) -> SpatialGrid<usize> {
    let mut grid = SpatialGrid::new();
    grid.rebuild(cells.iter().enumerate().map(|(k, &c)| (c, k)).collect());
    grid
}

fn sorted(mut v: Vec<u32>) -> Vec<u32> {
    v.sort();
    v
}

#[test]
fn cells_list_their_entries_in_order() {
    let grid = build(&[(0, 0), (5, 5), (0, 0), (1, -1), (-1, 1)]);
    assert_eq!(grid.entries().to_vec(), vec![0, 1, 2, 3, 4]);
    // Row by row from below, cell by cell: (1, -1) comes before (0, 0).
    assert_eq!(grid.neighbour_indices((0, 0)), vec![3, 0, 2, 4]);
    assert_eq!(grid.neighbour_indices((5, 5)), vec![1]);
    assert_eq!(grid.neighbour_indices((3, 3)), Vec::<u32>::new());
}

#[test]
fn rebuilding_empties_old_cells() {
    let mut grid = build(&[(0, 0), (2, 2), (9, 9)]);
    grid.rebuild(vec![((2, 2), 7usize)]);
    assert_eq!(grid.entries().to_vec(), vec![7]);
    assert_eq!(grid.neighbour_indices((0, 0)), Vec::<u32>::new());
    assert_eq!(grid.neighbour_indices((9, 9)), Vec::<u32>::new());
    assert_eq!(grid.neighbour_indices((1, 1)), vec![0]);
}

#[test]
fn negative_cells_work() {
    let grid = build(&[(-3, -3), (-2, -4), (-5, -3)]);
    assert_eq!(sorted(grid.neighbour_indices((-3, -3))), vec![0, 1]);
}

#[test]
fn finds_every_point_within_the_radius() {
    let mut seed = 0x2545_f491u32;
    let mut next = || {
        seed ^= seed << 13;
        seed ^= seed >> 17;
        seed ^= seed << 5;
        (seed >> 8) as f32 / (1 << 24) as f32
    };
    let points: Vec<Pos> = (0..300)
        .map(|_| (next() * 240.0 - 120.0, next() * 240.0 - 120.0))
        .collect();
    for h in [3.5f32, 20.0] {
        let mut grid = SpatialGrid::new();
        grid.rebuild(points.iter().map(|&p| (cell_of(p, h), p)).collect());
        for &q in &points {
            let close = |p: &Pos| (p.0 - q.0).powi(2) + (p.1 - q.1).powi(2) < h * h;
            let mut found: Vec<usize> = grid
                .neighbour_indices(cell_of(q, h))
                .into_iter()
                .map(|i| i as usize)
                .filter(|&i| close(&grid.entries()[i]))
                .collect();
            found.sort();
            let expected: Vec<usize> = (0..points.len()).filter(|&i| close(&points[i])).collect();
            assert_eq!(found, expected, "radius {h}");
        }
    }
}
