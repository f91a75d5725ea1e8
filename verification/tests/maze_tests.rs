use maze::maze::Block;
use maze::maze::Maze;
use maze::maze::MazeError;

fn seed_count(m: &Maze) -> usize {
    m.blocks.iter().filter(|b| b.seed).count()
}

fn open_edge_count(m: &Maze) -> usize {
    let mut count = 0;
    for b in &m.blocks {
        if b.x + 1 < m.cols && !b.walls.right {
            count += 1;
        }
        if b.y + 1 < m.rows && !b.walls.down {
            count += 1;
        }
    }
    count
}

fn all_same_region(m: &Maze) -> bool {
    m.blocks.iter().all(|b| b.region == m.blocks[0].region)
}

/// Runs generation to completion and returns how many ticks made progress.
fn run_to_completion(m: &mut Maze) -> usize {
    let bound = m.cols * m.rows + 2;
    let mut steps = 0;
    for _ in 0..bound {
        if !m.run() {
            return steps;
        }
        steps += 1;
    }
    panic!("generation did not complete within {} ticks", bound);
}

/// The cells reachable from `start` crossing only open walls.
fn reachable_set(m: &Maze, start: usize) -> Vec<bool> {
    let n = m.blocks.len();
    let mut seen = vec![false; n];
    let mut stack = vec![start];
    seen[start] = true;
    while let Some(i) = stack.pop() {
        let b = &m.blocks[i];
        let mut neighbors: Vec<usize> = Vec::new();
        if b.y > 0 && !b.walls.up {
            neighbors.push(i - m.cols);
        }
        if b.x + 1 < m.cols && !b.walls.right {
            neighbors.push(i + 1);
        }
        if b.y + 1 < m.rows && !b.walls.down {
            neighbors.push(i + m.cols);
        }
        if b.x > 0 && !b.walls.left {
            neighbors.push(i - 1);
        }
        for j in neighbors {
            if !seen[j] {
                seen[j] = true;
                stack.push(j);
            }
        }
    }
    seen
}

#[test]
fn construction_rejects_zero_dimensions() {
    assert_eq!(Maze::new(0, 3).err(), Some(MazeError::InvalidDimensions));
    assert_eq!(Maze::new(3, 0).err(), Some(MazeError::InvalidDimensions));
    assert_eq!(Maze::new(0, 0).err(), Some(MazeError::InvalidDimensions));
}

#[test]
fn construction_lays_out_row_major_grid() {
    let m = Maze::new(4, 3).unwrap();
    assert_eq!(m.cols, 4);
    assert_eq!(m.rows, 3);
    assert_eq!(m.blocks.len(), 12);
    for (i, b) in m.blocks.iter().enumerate() {
        assert_eq!(b.x, i % 4);
        assert_eq!(b.y, i / 4);
        assert_eq!(b.region, i);
        assert!(b.walls.up && b.walls.right && b.walls.down && b.walls.left);
    }
    assert_eq!(seed_count(&m), 1);
    assert_eq!(open_edge_count(&m), 0);
}

#[test]
fn one_by_one_grid_is_complete_at_once() {
    let mut m = Maze::new(1, 1).unwrap();
    assert_eq!(seed_count(&m), 1);
    assert!(!m.run());
    assert!(!m.run());
    let b = &m.blocks[0];
    assert!(b.walls.up && b.walls.right && b.walls.down && b.walls.left);
}

#[test]
fn two_by_one_grid_opens_its_single_edge() {
    let mut m = Maze::new(2, 1).unwrap();
    assert_eq!(seed_count(&m), 1);
    assert!(m.run());
    assert!(!m.blocks[0].walls.right);
    assert!(!m.blocks[1].walls.left);
    assert_eq!(m.blocks[0].region, m.blocks[1].region);
    assert!(!m.run());
    assert!(!m.run());
}

#[test]
fn three_by_three_grid_finishes_as_a_spanning_tree() {
    let mut m = Maze::new(3, 3).unwrap();
    let steps = run_to_completion(&mut m);
    assert_eq!(steps, 8);
    assert_eq!(open_edge_count(&m), 8);
    assert!(all_same_region(&m));
}

#[test]
fn spanning_tree_counts_hold_for_several_sizes() {
    for (cols, rows) in [(1, 1), (2, 1), (1, 5), (3, 3), (4, 2), (5, 4)] {
        let mut m = Maze::new(cols, rows).unwrap();
        let n = cols * rows;
        let steps = run_to_completion(&mut m);
        assert_eq!(steps, n - 1);
        assert_eq!(open_edge_count(&m), n - 1);
        assert!(all_same_region(&m));
        assert_eq!(seed_count(&m), 1);
    }
}

#[test]
fn completed_maze_never_changes_again() {
    let mut m = Maze::new(3, 3).unwrap();
    run_to_completion(&mut m);
    let snapshot: Vec<Block> = m.blocks.clone();
    for _ in 0..5 {
        assert!(!m.run());
        assert_eq!(m.blocks, snapshot);
    }
}

#[test]
fn walls_only_ever_disappear() {
    let mut m = Maze::new(4, 4).unwrap();
    for _ in 0..100 {
        let before: Vec<Block> = m.blocks.clone();
        let progressed = m.run();
        for (b0, b1) in before.iter().zip(m.blocks.iter()) {
            assert!(!b1.walls.up || b0.walls.up);
            assert!(!b1.walls.right || b0.walls.right);
            assert!(!b1.walls.down || b0.walls.down);
            assert!(!b1.walls.left || b0.walls.left);
        }
        if !progressed {
            return;
        }
    }
    panic!("generation did not complete");
}

#[test]
fn a_cell_is_never_its_own_candidate() {
    let m = Maze::new(3, 3).unwrap();
    for i in 0..m.blocks.len() {
        let candidates = m.possible_directions(i);
        assert!(!candidates.contains(&i));
        for &j in &candidates {
            let a = &m.blocks[i];
            let b = &m.blocks[j];
            let dx = a.x.abs_diff(b.x);
            let dy = a.y.abs_diff(b.y);
            assert_eq!(dx + dy, 1);
            assert_ne!(a.region, b.region);
        }
    }
}

#[test]
fn candidates_come_in_fixed_scan_order() {
    let m = Maze::new(3, 3).unwrap();
    assert_eq!(m.possible_directions(4), vec![1, 5, 7, 3]);
    assert_eq!(m.possible_directions(0), vec![1, 3]);
    assert_eq!(m.possible_directions(8), vec![5, 7]);
}

#[test]
fn fresh_grid_offers_every_neighbor_as_candidate() {
    let m = Maze::new(3, 3).unwrap();
    let expected = [2, 3, 2, 3, 4, 3, 2, 3, 2];
    for i in 0..9 {
        assert_eq!(m.possible_directions(i).len(), expected[i]);
    }
}

#[test]
fn regions_track_reachability_after_every_step() {
    let mut m = Maze::new(4, 4).unwrap();
    for _ in 0..100 {
        let progressed = m.run();
        for i in 0..m.blocks.len() {
            let seen = reachable_set(&m, i);
            for j in 0..m.blocks.len() {
                assert_eq!(seen[j], m.blocks[i].region == m.blocks[j].region);
            }
        }
        if !progressed {
            return;
        }
    }
    panic!("generation did not complete");
}

#[test]
fn run_to_completion_leaves_a_spanning_tree() {
    let mut m = Maze::new(5, 3).unwrap();
    m.run_to_completion();
    assert!(!m.run());
    assert_eq!(open_edge_count(&m), 14);
    assert!(all_same_region(&m));
}

#[test]
fn frontier_picking_matches_completion() {
    let mut m = Maze::new(2, 2).unwrap();
    let picked = m.get_random_possible_block();
    let i = picked.expect("a fresh grid with two cells has a frontier");
    assert!(i < m.blocks.len());
    assert!(!m.possible_directions(i).is_empty());
    let neighbor = m.get_visited_neighborhood(i);
    let j = neighbor.expect("a frontier cell has a candidate neighbor");
    assert!(m.possible_directions(i).contains(&j));
    run_to_completion(&mut m);
    assert_eq!(m.get_random_possible_block(), None);
    for i in 0..m.blocks.len() {
        assert_eq!(m.get_visited_neighborhood(i), None);
    }
}
