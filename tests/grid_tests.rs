use glam::Vec3;
use xpbd_core::grid::{CellCoord, SpatialHashGrid};

fn cell_of(p: Vec3, cell_size: f32) -> CellCoord {
    let inv = 1.0 / cell_size;
    (
        (p.x * inv).floor() as i32,
        (p.y * inv).floor() as i32,
        (p.z * inv).floor() as i32,
    )
}

fn cells_of(positions: &[Vec3], cell_size: f32) -> Vec<CellCoord> {
    positions.iter().map(|p| cell_of(*p, cell_size)).collect()
}

#[test]
fn test_grid_build_and_query() {
    let mut grid = SpatialHashGrid::new(1024, 100);

    // Two particles close together, one far away.
    let positions = vec![
        Vec3::new(0.1, 0.1, 0.1),
        Vec3::new(0.2, 0.2, 0.2),
        Vec3::new(10.0, 10.0, 10.0),
    ];
    let cells = cells_of(&positions, 1.0);
    grid.build(&cells, 3);

    let neighbors = grid.query_neighbors(cell_of(positions[0], 1.0));

    assert!(neighbors.contains(&0), "should find self");
    assert!(neighbors.contains(&1), "should find nearby particle");
    assert!(!neighbors.contains(&2), "should NOT find far particle");
}

#[test]
fn test_grid_all_particles_found() {
    let mut grid = SpatialHashGrid::new(131072, 1000);

    let mut positions = Vec::new();
    for i in 0..1000 {
        let t = i as f32 / 1000.0;
        let angle = t * std::f32::consts::TAU * 20.0;
        let r = 0.5 + t * 2.0;
        positions.push(Vec3::new(angle.cos() * r, (t - 0.5) * 3.0, angle.sin() * r));
    }
    let cells = cells_of(&positions, 0.2);
    grid.build(&cells, 1000);

    for i in 0..1000 {
        let found = grid.query_neighbors(cells[i]);
        assert!(found.contains(&(i as u32)), "particle {} not found in its own cell query", i);
    }
}

#[test]
fn test_grid_empty() {
    let mut grid = SpatialHashGrid::new(1024, 100);
    let cells: Vec<CellCoord> = vec![];
    grid.build(&cells, 0);

    let found = grid.query_neighbors((0, 0, 0));
    assert_eq!(found.len(), 0);
}

#[test]
fn test_grid_rebuild() {
    let mut grid = SpatialHashGrid::new(1024, 100);

    let pos1 = vec![Vec3::new(0.0, 0.0, 0.0), Vec3::new(5.0, 5.0, 5.0)];
    grid.build(&cells_of(&pos1, 1.0), 2);

    let pos2 = vec![Vec3::new(5.0, 5.0, 5.0), Vec3::new(0.0, 0.0, 0.0)];
    grid.build(&cells_of(&pos2, 1.0), 2);

    let neighbors = grid.query_neighbors(cell_of(Vec3::ZERO, 1.0));
    assert!(neighbors.contains(&1), "should find particle 1 at origin after rebuild");
}

#[test]
fn test_grid_negative_positions() {
    let mut grid = SpatialHashGrid::new(1024, 100);

    let positions = vec![
        Vec3::new(-1.0, -1.0, -1.0),
        Vec3::new(-0.9, -1.0, -1.0),
        Vec3::new(5.0, 5.0, 5.0),
    ];
    grid.build(&cells_of(&positions, 1.0), 3);

    let neighbors = grid.query_neighbors(cell_of(Vec3::new(-1.0, -1.0, -1.0), 1.0));

    assert!(neighbors.contains(&0), "should find particle 0 at negative position");
    assert!(neighbors.contains(&1), "should find nearby particle 1 at negative position");
    assert!(!neighbors.contains(&2), "should NOT find distant particle 2");
}

#[test]
fn test_grid_large_positions() {
    let mut grid = SpatialHashGrid::new(1024, 100);

    let positions = vec![Vec3::new(1000.0, 1000.0, 1000.0)];
    grid.build(&cells_of(&positions, 1.0), 1);

    let neighbors = grid.query_neighbors(cell_of(Vec3::new(1000.0, 1000.0, 1000.0), 1.0));
    assert!(neighbors.contains(&0), "should find particle 0 at large position");
}

#[test]
fn test_grid_single_particle() {
    let mut grid = SpatialHashGrid::new(1024, 100);

    let positions = vec![Vec3::new(0.0, 0.0, 0.0)];
    grid.build(&cells_of(&positions, 1.0), 1);

    let neighbors = grid.query_neighbors(cell_of(Vec3::ZERO, 1.0));
    assert!(neighbors.contains(&0), "should find single particle at origin");
}

#[test]
fn grid_hash_matches_formula() {
    let grid = SpatialHashGrid::new(131072, 4);
    // (1 * 73856093) ^ (2 * 19349663) ^ (3 * 83492791), all mod 2^32, then mod 131072.
    let hx = 73856093u32;
    let hy = 2u32.wrapping_mul(19349663);
    let hz = 3u32.wrapping_mul(83492791);
    let expected = ((hx ^ hy ^ hz) as usize) % 131072;
    assert_eq!(grid.hash_cell((1, 2, 3)), expected);
    assert_eq!(grid.hash_cell((0, 0, 0)), 0);
    // Negative coordinates wrap as two's complement.
    let neg = ((u32::MAX.wrapping_mul(73856093)) as usize) % 131072;
    assert_eq!(grid.hash_cell((-1, 0, 0)), neg);
}

#[test]
fn grid_neighbor_block_found_across_every_offset() {
    let mut grid = SpatialHashGrid::new(4096, 27);
    let mut cells = Vec::new();
    for dx in -1..=1 {
        for dy in -1..=1 {
            for dz in -1..=1 {
                cells.push((10 + dx, -5 + dy, 7 + dz));
            }
        }
    }
    grid.build(&cells, 27);
    assert_eq!(grid.len(), 27);
    let found = grid.query_neighbors((10, -5, 7));
    for i in 0..27u32 {
        assert!(found.contains(&i), "cell {} of the block not listed", i);
    }
}

#[test]
fn grid_build_uses_only_count_particles() {
    let mut grid = SpatialHashGrid::new(1024, 10);
    let cells = vec![(0, 0, 0), (0, 0, 0), (0, 0, 0)];
    grid.build(&cells, 2);
    let found = grid.query_neighbors((0, 0, 0));
    assert!(found.contains(&0));
    assert!(found.contains(&1));
    assert!(!found.contains(&2));
}

#[test]
fn candidate_pairs_lists_near_pairs_in_index_order() {
    let mut grid = SpatialHashGrid::new(131072, 10);
    let positions = vec![
        Vec3::new(0.0, 0.0, 0.0),
        Vec3::new(0.1, 0.0, 0.0),
        Vec3::new(50.0, 50.0, 50.0),
    ];
    let cells = cells_of(&positions, 1.0);
    grid.build(&cells, 3);
    let pairs = grid.candidate_pairs(&cells);
    assert!(pairs.contains(&(0, 1)));
    assert!(!pairs.contains(&(1, 0)));
    assert!(!pairs.iter().any(|&(a, b)| a == 2 || b == 2));
    assert!(pairs.iter().all(|&(a, b)| a < b));
}

#[test]
fn query_lists_each_particle_once_even_when_every_cell_collides() {
    // A one-slot table: all 27 probed cells share the slot.
    let mut grid = SpatialHashGrid::new(1, 10);
    let cells = vec![(0, 0, 0), (1, 1, 1), (50, -3, 9)];
    grid.build(&cells, 3);
    let mut found = grid.query_neighbors((0, 0, 0));
    found.sort();
    assert_eq!(found, vec![0, 1, 2]);
}

#[test]
fn candidate_pairs_hold_each_pair_once() {
    let mut grid = SpatialHashGrid::new(1, 10);
    let cells = vec![(0, 0, 0), (0, 0, 1)];
    grid.build(&cells, 2);
    assert_eq!(grid.candidate_pairs(&cells), vec![(0, 1)]);
}
