use pathfinding::{astar, diagonal_distance, get_neighbors, manhattan_distance, reconstruct_path};
use std::collections::BTreeMap;

fn solid(row: usize, col: usize, grid: &Vec<Vec<i32>>) -> bool {
    grid[row][col] == 1
}

fn bordered(n: usize) -> Vec<Vec<i32>> {
    let mut grid = vec![vec![0; n]; n];
    for i in 0..n {
        grid[0][i] = 1;
        grid[n - 1][i] = 1;
        grid[i][0] = 1;
        grid[i][n - 1] = 1;
    }
    grid
}

fn assert_valid_path(path: &[(i32, i32)], start: (i32, i32), end: (i32, i32), grid: &Vec<Vec<i32>>) {
    assert_eq!(path[0], start);
    assert_eq!(*path.last().unwrap(), end);
    for p in path {
        assert_eq!(grid[p.0 as usize][p.1 as usize], 0);
    }
    for w in path.windows(2) {
        let d = (w[0].0 - w[1].0).abs() + (w[0].1 - w[1].1).abs();
        assert_eq!(d, 1);
    }
}

#[test]
fn reconstruct_path_chain_of_three() {
    let a = (0, 0);
    let b = (0, 1);
    let c = (1, 1);
    let mut came_from = BTreeMap::new();
    came_from.insert(c, b);
    came_from.insert(b, a);
    assert_eq!(reconstruct_path(&came_from, c), vec![a, b, c]);
}

#[test]
fn reconstruct_path_walks_back_to_root() {
    let mut came_from = BTreeMap::new();
    came_from.insert((1, 1), (1, 0));
    came_from.insert((1, 0), (0, 0));
    came_from.insert((0, 0), (0, 1));
    let path = reconstruct_path(&came_from, (1, 1));
    assert_eq!(path, vec![(0, 1), (0, 0), (1, 0), (1, 1)]);
}

#[test]
fn reconstruct_path_without_parent() {
    let came_from = BTreeMap::new();
    assert_eq!(reconstruct_path(&came_from, (4, 2)), vec![(4, 2)]);
}

#[test]
fn neighbors_of_interior_cell_in_fixed_order() {
    let grid = bordered(5);
    let neighbors = get_neighbors(2, 2, &grid, solid);
    assert_eq!(neighbors, vec![(1, 2), (2, 1), (3, 2), (2, 3)]);
    assert_eq!(neighbors.len(), 4);
}

#[test]
fn neighbors_skip_solid_cells() {
    let grid = bordered(5);
    assert_eq!(get_neighbors(1, 1, &grid, solid), vec![(2, 1), (1, 2)]);
}

#[test]
fn neighbors_stop_at_grid_edge() {
    let grid = vec![vec![0; 2]; 2];
    assert_eq!(get_neighbors(0, 0, &grid, solid), vec![(1, 0), (0, 1)]);
    assert_eq!(get_neighbors(1, 1, &grid, solid), vec![(0, 1), (1, 0)]);
}

#[test]
fn manhattan_distance_sums_differences() {
    assert_eq!(manhattan_distance((1, 1), (1, 3)), 2);
    assert_eq!(manhattan_distance((4, 0), (1, 3)), 6);
    assert_eq!(manhattan_distance((2, 2), (2, 2)), 0);
}

#[test]
fn diagonal_distance_takes_larger_difference() {
    assert_eq!(diagonal_distance((0, 0), (3, 4)), 4);
    assert_eq!(diagonal_distance((0, 0), (3, 4)) * 2, 8);
    assert_eq!(diagonal_distance((5, 1), (0, 3)), 5);
}

#[test]
fn astar_goes_around_wall() {
    let grid = vec![
        vec![1, 1, 1, 1, 1],
        vec![1, 0, 1, 0, 1],
        vec![1, 0, 1, 0, 1],
        vec![1, 0, 0, 0, 1],
        vec![1, 1, 1, 1, 1],
    ];
    let path = astar((1, 1), (1, 3), &grid, manhattan_distance, |row, col, grid| grid[row][col] == 1);
    let expected = Some(vec![(1, 1), (2, 1), (3, 1), (3, 2), (3, 3), (2, 3), (1, 3)]);
    assert_eq!(path, expected);
}

#[test]
fn astar_bordered_grid_takes_direct_route() {
    let grid = bordered(5);
    let path = astar((1, 1), (1, 3), &grid, manhattan_distance, solid);
    assert_eq!(path, Some(vec![(1, 1), (1, 2), (1, 3)]));
}

#[test]
fn astar_open_grid_path_length_is_manhattan_plus_one() {
    let grid = vec![vec![0; 10]; 10];
    for &(start, end) in &[((1, 1), (8, 8)), ((0, 9), (9, 0)), ((3, 4), (3, 7)), ((9, 9), (0, 0))] {
        let path = astar(start, end, &grid, manhattan_distance, solid).unwrap();
        assert_eq!(path.len() as i32, manhattan_distance(start, end) + 1);
        assert_valid_path(&path, start, end, &grid);
    }
}

#[test]
fn astar_with_diagonal_heuristic_finds_valid_path() {
    let grid = vec![vec![0; 6]; 6];
    let path = astar((0, 0), (5, 3), &grid, diagonal_distance, solid).unwrap();
    assert_valid_path(&path, (0, 0), (5, 3), &grid);
    assert_eq!(path.len(), 9);
}

#[test]
fn astar_path_through_maze_is_valid() {
    let grid = vec![
        vec![0, 0, 0, 0, 0, 0],
        vec![1, 1, 1, 1, 1, 0],
        vec![0, 0, 0, 0, 1, 0],
        vec![0, 1, 1, 0, 1, 0],
        vec![0, 1, 0, 0, 0, 0],
        vec![0, 1, 0, 1, 1, 1],
    ];
    let path = astar((0, 0), (5, 0), &grid, manhattan_distance, solid).unwrap();
    assert_valid_path(&path, (0, 0), (5, 0), &grid);
}

#[test]
fn astar_enclosed_end_has_no_path() {
    let mut grid = vec![vec![0; 5]; 5];
    grid[1][2] = 1;
    grid[2][1] = 1;
    grid[3][2] = 1;
    grid[2][3] = 1;
    assert_eq!(astar((0, 0), (2, 2), &grid, manhattan_distance, solid), None);
}

#[test]
fn astar_walled_off_region_has_no_path() {
    let mut grid = vec![vec![0; 6]; 6];
    for r in 0..6 {
        grid[r][3] = 1;
    }
    assert_eq!(astar((0, 0), (5, 5), &grid, manhattan_distance, solid), None);
}

#[test]
fn astar_start_equals_end() {
    let grid = bordered(5);
    assert_eq!(astar((2, 2), (2, 2), &grid, manhattan_distance, solid), Some(vec![(2, 2)]));
}

#[test]
fn astar_rejects_solid_or_outside_endpoints() {
    let grid = bordered(5);
    assert_eq!(astar((0, 0), (2, 2), &grid, manhattan_distance, solid), None);
    assert_eq!(astar((2, 2), (4, 4), &grid, manhattan_distance, solid), None);
    assert_eq!(astar((-1, 2), (2, 2), &grid, manhattan_distance, solid), None);
    assert_eq!(astar((2, 2), (2, 5), &grid, manhattan_distance, solid), None);
    let empty: Vec<Vec<i32>> = Vec::new();
    assert_eq!(astar((0, 0), (0, 0), &empty, manhattan_distance, solid), None);
}

#[test]
fn astar_is_deterministic() {
    let grid = vec![vec![0; 8]; 8];
    let first = astar((0, 0), (7, 7), &grid, manhattan_distance, solid);
    let second = astar((0, 0), (7, 7), &grid, manhattan_distance, solid);
    assert_eq!(first, second);
    let first = astar((0, 0), (7, 7), &grid, diagonal_distance, solid);
    let second = astar((0, 0), (7, 7), &grid, diagonal_distance, solid);
    assert_eq!(first, second);
}

fn bfs_len(grid: &Vec<Vec<i32>>, start: (i32, i32), end: (i32, i32)) -> Option<usize> {
    let h = grid.len() as i32;
    let w = grid[0].len() as i32;
    let mut dist = vec![vec![usize::MAX; w as usize]; h as usize];
    let mut queue = std::collections::VecDeque::new();
    dist[start.0 as usize][start.1 as usize] = 0;
    queue.push_back(start);
    while let Some((r, c)) = queue.pop_front() {
        for (dr, dc) in [(-1, 0), (0, -1), (1, 0), (0, 1)] {
            let (nr, nc) = (r + dr, c + dc);
            if nr >= 0 && nc >= 0 && nr < h && nc < w && grid[nr as usize][nc as usize] == 0
                && dist[nr as usize][nc as usize] == usize::MAX
            {
                dist[nr as usize][nc as usize] = dist[r as usize][c as usize] + 1;
                queue.push_back((nr, nc));
            }
        }
    }
    let d = dist[end.0 as usize][end.1 as usize];
    if d == usize::MAX { None } else { Some(d + 1) }
}

#[test]
fn astar_matches_breadth_first_lengths() {
    let grid = vec![
        vec![0, 0, 0, 0, 0, 0, 0],
        vec![0, 1, 1, 1, 1, 1, 0],
        vec![0, 1, 0, 0, 0, 1, 0],
        vec![0, 1, 0, 1, 0, 1, 0],
        vec![0, 0, 0, 1, 0, 0, 0],
        vec![1, 1, 0, 1, 1, 1, 0],
        vec![0, 0, 0, 0, 0, 1, 0],
    ];
    for sr in 0..7 {
        for sc in 0..7 {
            for &end in &[(3, 2), (6, 0), (2, 4), (0, 6)] {
                let start = (sr, sc);
                let expected = if grid[sr as usize][sc as usize] == 1 {
                    None
                } else {
                    bfs_len(&grid, start, end)
                };
                let found = astar(start, end, &grid, manhattan_distance, solid);
                assert_eq!(found.as_ref().map(|p| p.len()), expected);
                if let Some(path) = found {
                    assert_valid_path(&path, start, end, &grid);
                }
                let found = astar(start, end, &grid, diagonal_distance, solid);
                assert_eq!(found.map(|p| p.len()), expected);
            }
        }
    }
}
