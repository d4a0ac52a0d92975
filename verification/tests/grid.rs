use fluid_2d::grid::{GridEntry, SpatialGrid};

/// Half the tank plus padding, as in the simulation.
const EXTENT: f32 = 100.0 + 32.0;

type Pos = (f32, f32);

#[derive(Clone, Copy, Debug, Default, PartialEq)]
struct Density {
    value: f32,
    near: f32,
}

#[derive(Clone, Copy, Debug, PartialEq)]
struct Body {
    position: Pos,
}

type Entry = GridEntry<Body, Density>;

/// The float side of the grid: cell size, width and raw cell coordinates.
struct Grid {
    cell_size: f32,
    grid: SpatialGrid<Body, Density>,
}

impl Grid {
    fn new() -> Self {
        Grid {
            cell_size: 0.0,
            grid: SpatialGrid::new(),
        }
    }

    fn raw(&self, p: Pos) -> (i32, i32) {
        let half = self.grid.width() as f32 / 2.0;
        (
            (p.0 / self.cell_size + half).floor() as i32,
            (p.1 / self.cell_size + half).floor() as i32,
        )
    }

    fn rebuild(&mut self, cell_size: f32, positions: &[Pos]) {
        self.cell_size = cell_size.max(0.01);
        let width = ((2.0 * EXTENT / self.cell_size).ceil() as i32).max(1);
        let half = width as f32 / 2.0;
        let input: Vec<((i32, i32), Entry)> = positions
            .iter()
            .map(|&position| {
                let raw = (
                    (position.0 / self.cell_size + half).floor() as i32,
                    (position.1 / self.cell_size + half).floor() as i32,
                );
                (
                    raw,
                    GridEntry {
                        body: Body { position },
                        density: Density::default(),
                    },
                )
            })
            .collect();
        self.grid.rebuild(width, input);
    }

    fn for_each_neighbour(&self, position: Pos, mut visit: impl FnMut(&Entry, f32)) {
        let (x, y) = self.raw(position);
        let sqr_radius = self.cell_size * self.cell_size;
        let entries = self.grid.entries();
        for (begin, end) in self.grid.neighbour_ranges(x, y) {
            for entry in &entries[begin..end] {
                let sqr_distance = distance_squared(entry.body.position, position);
                if sqr_distance < sqr_radius {
                    visit(entry, sqr_distance.sqrt());
                }
            }
        }
    }
}

fn distance_squared(a: Pos, b: Pos) -> f32 {
    let (dx, dy) = (a.0 - b.0, a.1 - b.1);
    dx * dx + dy * dy
}

fn points(n: usize) -> Vec<Pos> {
    let mut seed = 0x2545_f491u32;
    let mut next = || {
        seed ^= seed << 13;
        seed ^= seed >> 17;
        seed ^= seed << 5;
        (seed >> 8) as f32 / (1 << 24) as f32
    };
    (0..n)
        .map(|_| (next() * 240.0 - 120.0, next() * 240.0 - 120.0))
        .collect()
}

fn sort(v: &mut Vec<Pos>) {
    v.sort_by(|a, b| [a.0, a.1].partial_cmp(&[b.0, b.1]).unwrap());
}

#[test]
fn matches_brute_force() {
    for h in [1.0f32, 3.5, 6.0, 20.0] {
        let positions = points(600);
        let mut grid = Grid::new();
        grid.rebuild(h, &positions);

        for &query in &positions {
            let mut found: Vec<Pos> = Vec::new();
            grid.for_each_neighbour(query, |entry, distance| {
                assert!((distance - distance_squared(entry.body.position, query).sqrt()).abs() < 1e-3);
                found.push(entry.body.position);
            });
            let mut expected: Vec<Pos> = positions
                .iter()
                .copied()
                .filter(|&p| distance_squared(p, query) < h * h)
                .collect();

            sort(&mut found);
            sort(&mut expected);
            assert_eq!(found, expected, "radius {h}");
        }
    }
}

#[test]
fn slots_point_at_the_right_entry() {
    let positions = points(300);
    let mut grid = Grid::new();
    grid.rebuild(6.0, &positions);

    let slots = grid.grid.slots().to_vec();
    assert_eq!(slots.len(), positions.len());
    for (k, &slot) in slots.iter().enumerate() {
        grid.grid.set_density(
            slot,
            Density {
                value: k as f32,
                near: 0.0,
            },
        );
    }
    for (k, &slot) in slots.iter().enumerate() {
        assert_eq!(grid.grid.entries()[slot as usize].body.position, positions[k]);
        assert_eq!(grid.grid.entries()[slot as usize].density.value, k as f32);
    }
}

#[test]
fn rebuild_drops_old_entries() {
    let mut grid = Grid::new();
    let positions = points(200);

    grid.rebuild(6.0, &positions);
    grid.rebuild(6.0, &positions[..10]);

    let mut count = 0;
    for &query in &positions[..10] {
        grid.for_each_neighbour(query, |_, _| count += 1);
    }
    assert!(count >= 10);
    assert_eq!(grid.grid.entries().len(), 10);
}

fn plain(cells: &[(i32, i32)], width: i32) -> SpatialGrid<usize, u8> {
    let mut grid = SpatialGrid::new();
    let input = cells
        .iter()
        .enumerate()
        .map(|(k, &c)| (c, GridEntry { body: k, density: 0u8 }))
        .collect();
    grid.rebuild(width, input);
    grid
}

#[test]
fn entries_are_sorted_by_cell_and_stable() {
    // Cells of a 3-wide grid: index = y * 3 + x.
    let grid = plain(&[(2, 0), (0, 0), (2, 0), (1, 1), (0, 0)], 3);
    let bodies: Vec<usize> = grid.entries().iter().map(|e| e.body).collect();
    assert_eq!(bodies, vec![1, 4, 0, 2, 3]);
    assert_eq!(grid.slots().to_vec(), vec![2, 0, 3, 4, 1]);
}

#[test]
fn far_coordinates_land_in_edge_cells() {
    let grid = plain(&[(-50, 7), (99, -3), (1, 1)], 3);
    assert_eq!(grid.cell_coords(-50, 7), (0, 2));
    assert_eq!(grid.cell_coords(99, -3), (2, 0));
    assert_eq!(grid.cell_index(-50, 7), 6);
    assert_eq!(grid.cell_index(99, -3), 2);
    let bodies: Vec<usize> = grid.entries().iter().map(|e| e.body).collect();
    assert_eq!(bodies, vec![1, 2, 0]);
}

#[test]
fn width_below_one_counts_as_one() {
    let grid = plain(&[(5, 5), (-5, -5)], 0);
    assert_eq!(grid.width(), 1);
    assert_eq!(grid.neighbour_ranges(0, 0), vec![(0, 2)]);
}

#[test]
fn neighbour_ranges_cover_the_block() {
    // A 4-wide grid with one entry per cell, in cell order.
    let cells: Vec<(i32, i32)> = (0..16).map(|i| (i % 4, i / 4)).collect();
    let grid = plain(&cells, 4);
    // Interior cell (1, 1): rows 0..=2, columns 0..=2.
    assert_eq!(grid.neighbour_ranges(1, 1), vec![(0, 3), (4, 7), (8, 11)]);
    // Corner cell (3, 3): rows 2..=3, columns 2..=3.
    assert_eq!(grid.neighbour_ranges(3, 3), vec![(10, 12), (14, 16)]);
    // Far outside clamps to the corner (0, 0).
    assert_eq!(grid.neighbour_ranges(-9, -9), vec![(0, 2), (4, 6)]);
}

#[test]
fn set_density_past_the_end_is_ignored() {
    let mut grid = plain(&[(0, 0), (1, 0)], 2);
    grid.set_density(1, 7);
    grid.set_density(2, 9);
    let densities: Vec<u8> = grid.entries().iter().map(|e| e.density).collect();
    assert_eq!(densities, vec![0, 7]);
}

#[test]
fn an_empty_grid_holds_nothing() {
    let grid: SpatialGrid<usize, u8> = SpatialGrid::new();
    assert_eq!(grid.width(), 0);
    assert!(grid.entries().is_empty());
    assert!(grid.slots().is_empty());
}
