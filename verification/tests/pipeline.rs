use seedmaze::grid::Cell;
use seedmaze::grid::Wall;
use seedmaze::maze::Config;
use seedmaze::maze::SeedMaze;
use seedmaze::maze::SeedRange;
use seedmaze::SeededGenerator;

/// The smallest draw whose unit-interval image is at least `chance`: the
/// walk continues exactly on draws at or above this threshold, as a `>=`
/// comparison on the f64 image would decide.
fn termination_threshold(chance: f64) -> u64 {
    let mut lo: u64 = 0;
    let mut hi: u64 = 2147483647;
    while lo < hi {
        let mid = (lo + hi) / 2;
        if (mid as f64 - 1.) / 2147483646. >= chance {
            hi = mid;
        } else {
            lo = mid + 1;
        }
    }
    lo
}

/// The largest draw whose unit-interval image is at most `chance`: the
/// walk turns exactly on draws at or below this threshold, as a `<=`
/// comparison on the f64 image would decide.
fn turn_threshold(chance: f64) -> u64 {
    let mut lo: u64 = 0;
    let mut hi: u64 = 2147483646;
    let mut best: u64 = 0;
    while lo <= hi {
        let mid = (lo + hi) / 2;
        if (mid as f64 - 1.) / 2147483646. <= chance {
            best = mid;
            lo = mid + 1;
        } else {
            if mid == 0 {
                break;
            }
            hi = mid - 1;
        }
    }
    best
}

fn build(size: u32, seed: u64, min: u32, max: u32, turn: f64, term: f64, wrap: bool) -> SeedMaze {
    SeedMaze::new(Config {
        size,
        maze_seed: seed,
        prng: SeededGenerator::new(seed),
        seed_range: SeedRange { min, max },
        turn_threshold: turn_threshold(turn),
        termination_threshold: termination_threshold(term),
        wall_wrapping: wrap,
    })
}

#[test]
fn threshold_of_zero_chances() {
    assert_eq!(turn_threshold(0.0), 1);
    assert_eq!(termination_threshold(0.9), 1932735283);
    assert_eq!(termination_threshold(0.12), 257698039);
    assert_eq!(turn_threshold(0.17), 365072220);
}

#[test]
fn golden_grid() {
    // size 10, seed 1, growth count range [2, 3), turn chance 0,
    // termination chance 0.9, no wall wrapping: a fixed reference grid.
    let mut m = build(10, 1, 2, 3, 0.0, 0.9, false);
    assert_eq!(m.seed_amount, 2);
    m.init();
    let expected_colors: [i64; 100] = [
        -1, -1, -1, -1, -1, -1, -1, -1, -1, -1, -1, -1, 0, -1, -1, -1, 1, -1, -1, -1, -1, -1, -1,
        -1, -1, -1, -1, -1, -1, -1, -1, -1, -1, -1, -1, 2, -1, -1, -1, -1, -1, -1, -1, -1, -1, -1,
        -1, -1, -1, -1, -1, -1, -1, -1, -1, -1, -1, -1, -1, -1, -1, -1, -1, -1, -1, -1, 3, -1, -1,
        -1, -1, 4, -1, -1, -1, -1, -1, -1, -1, -1, -1, -1, -1, -1, -1, -1, -1, -1, -1, -1, -1, -1,
        -1, -1, -1, -1, -1, -1, -1, -1,
    ];
    for i in 0..100 {
        let want = if expected_colors[i] < 0 {
            Cell::ConnectedBlank
        } else {
            Cell::Colored(expected_colors[i] as u32)
        };
        assert_eq!(m.map.cells[i], want);
    }
    let expected_walls: [(u32, u32, u32, u32); 5] =
        [(2, 1, 1, 1), (6, 1, 1, 1), (5, 3, 1, 1), (6, 6, 1, 1), (1, 7, 1, 1)];
    assert_eq!(m.map.walls.len(), 5);
    for (i, (x, y, w, h)) in expected_walls.iter().enumerate() {
        let wall: Wall = m.map.walls[i];
        assert_eq!((wall.x, wall.y, wall.width, wall.height), (*x, *y, *w, *h));
    }
}

#[test]
fn two_runs_are_identical() {
    let mut a = build(24, 777, 3, 8, 0.17, 0.12, false);
    let mut b = build(24, 777, 3, 8, 0.17, 0.12, false);
    a.init();
    b.init();
    assert_eq!(a.map.cells, b.map.cells);
    assert_eq!(a.map.walls.len(), b.map.walls.len());
    for i in 0..a.map.walls.len() {
        let wa = a.map.walls[i];
        let wb = b.map.walls[i];
        assert_eq!(
            (wa.x, wa.y, wa.width, wa.height),
            (wb.x, wb.y, wb.width, wb.height)
        );
    }
}

#[test]
fn every_cell_is_connected_or_colored() {
    let seeds: [u64; 3] = [1, 4273397102455203, 99991];
    for s in seeds {
        let mut m = build(40, s, 30, 50, 0.17, 0.12, true);
        m.init();
        for c in &m.map.cells {
            assert!(matches!(c, Cell::ConnectedBlank | Cell::Colored(_)));
        }
    }
}

#[test]
fn regions_partition_the_colored_cells() {
    let mut m = build(40, 4273397102455203, 30, 50, 0.17, 0.12, true);
    m.init();
    let size = m.map.size;
    // no two rectangles share a cell, and each colored cell lies in the
    // rectangle of its own color
    let mut owner: Vec<Option<usize>> = vec![None; (size * size) as usize];
    for (i, w) in m.map.walls.iter().enumerate() {
        for dx in 0..w.width {
            for dy in 0..w.height {
                let idx = ((w.y + dy) * size + w.x + dx) as usize;
                assert!(owner[idx].is_none());
                owner[idx] = Some(i);
            }
        }
    }
    for y in 0..size {
        for x in 0..size {
            let idx = (y * size + x) as usize;
            match m.map.cells[idx] {
                Cell::Colored(c) => assert_eq!(owner[idx], Some(c as usize)),
                Cell::ConnectedBlank => assert!(owner[idx].is_none()),
                _ => panic!("cell left unfinished"),
            }
        }
    }
}

#[test]
fn smallest_grid_becomes_one_open_cell() {
    // on a one-cell grid every placement is rejected and the origin is the
    // whole connected region
    let mut m = build(1, 5, 0, 4, 0.3, 0.1, false);
    m.init();
    assert_eq!(m.map.cells.len(), 1);
    assert_eq!(m.map.cells[0], Cell::ConnectedBlank);
    assert_eq!(m.map.walls.len(), 0);
}

#[test]
fn growth_count_stays_in_range() {
    let cases: [(u64, u32, u32); 5] = [(1, 2, 3), (2, 0, 1), (999, 30, 50), (5, 7, 7), (77, 1, 100)];
    for (seed, min, max) in cases {
        let m = build(12, seed, min, max, 0.1, 0.3, false);
        if min < max {
            assert!(min <= m.seed_amount && m.seed_amount < max);
        } else {
            assert_eq!(m.seed_amount, min);
        }
    }
}

#[test]
fn flood_fill_marks_exactly_the_connected_region() {
    let mut m = build(20, 314159, 4, 9, 0.2, 0.15, false);
    m.seed_walls();
    m.grow_walls();
    m.sprinkle_walls();
    m.find_pockets();
    let size = m.map.size;
    let at = |cells: &Vec<Cell>, x: u32, y: u32| cells[(y * size + x) as usize];
    // the origin is marked
    assert_eq!(at(&m.map.cells, 0, 0), Cell::ConnectedBlank);
    // no blank cell touches the connected region
    for y in 0..size {
        for x in 0..size {
            if at(&m.map.cells, x, y) == Cell::ConnectedBlank {
                let mut neighbors: Vec<(u32, u32)> = Vec::new();
                if x > 0 {
                    neighbors.push((x - 1, y));
                }
                if x + 1 < size {
                    neighbors.push((x + 1, y));
                }
                if y > 0 {
                    neighbors.push((x, y - 1));
                }
                if y + 1 < size {
                    neighbors.push((x, y + 1));
                }
                for (nx, ny) in neighbors {
                    assert_ne!(at(&m.map.cells, nx, ny), Cell::Blank);
                }
            }
        }
    }
    // every marked cell is reachable from the origin through marked cells
    let mut reach: Vec<bool> = vec![false; (size * size) as usize];
    let mut queue: Vec<(u32, u32)> = vec![(0, 0)];
    reach[0] = true;
    while let Some((cx, cy)) = queue.pop() {
        let mut cands: Vec<(u32, u32)> = Vec::new();
        if cx > 0 {
            cands.push((cx - 1, cy));
        }
        if cx + 1 < size {
            cands.push((cx + 1, cy));
        }
        if cy > 0 {
            cands.push((cx, cy - 1));
        }
        if cy + 1 < size {
            cands.push((cx, cy + 1));
        }
        for (nx, ny) in cands {
            let idx = (ny * size + nx) as usize;
            if !reach[idx] && at(&m.map.cells, nx, ny) == Cell::ConnectedBlank {
                reach[idx] = true;
                queue.push((nx, ny));
            }
        }
    }
    for y in 0..size {
        for x in 0..size {
            let idx = (y * size + x) as usize;
            if at(&m.map.cells, x, y) == Cell::ConnectedBlank {
                assert!(reach[idx]);
            }
        }
    }
}

#[test]
fn seed_placements_are_spaced_and_interior() {
    let mut m = build(30, 123, 5, 12, 0.1, 0.2, false);
    m.seed_walls();
    let size = m.map.size;
    for s in &m.seeds {
        assert!(s.x > 0 && s.x < size - 1 && s.y > 0 && s.y < size - 1);
    }
    for i in 0..m.seeds.len() {
        for j in 0..m.seeds.len() {
            if i != j {
                let a = m.seeds[i];
                let b = m.seeds[j];
                let dx = a.x.abs_diff(b.x);
                let dy = a.y.abs_diff(b.y);
                assert!(dx > 3 || dy > 3);
            }
        }
    }
}
