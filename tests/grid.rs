use pathfinding::Grid;

#[test]
fn new_grid_is_default_filled() {
    let grid: Grid<i32> = Grid::new(3, 2);
    assert_eq!(grid.width, 3);
    assert_eq!(grid.height, 2);
    assert_eq!(grid.to_vec(), vec![vec![0, 0, 0], vec![0, 0, 0]]);
}

#[test]
fn from_vec_takes_dimensions_from_rows() {
    let grid = Grid::from_vec(vec![vec![1, 2], vec![3, 4], vec![5, 6]]);
    assert_eq!(grid.width, 2);
    assert_eq!(grid.height, 3);
    assert_eq!(grid.get(2, 1), Some(&6));
    assert_eq!(grid.to_vec(), vec![vec![1, 2], vec![3, 4], vec![5, 6]]);
}

#[test]
fn get_outside_is_none() {
    let grid: Grid<i32> = Grid::new(3, 2);
    assert_eq!(grid.get(2, 0), None);
    assert_eq!(grid.get(0, 3), None);
    assert_eq!(grid.get(1, 2), Some(&0));
}

#[test]
fn set_returns_previous_value() {
    let mut grid: Grid<i32> = Grid::new(2, 2);
    assert_eq!(grid.set(1, 0, 7), Some(0));
    assert_eq!(grid.set(1, 0, 9), Some(7));
    assert_eq!(grid.get(1, 0), Some(&9));
    assert_eq!(grid.set(2, 0, 5), None);
    assert_eq!(grid.to_vec(), vec![vec![0, 0], vec![9, 0]]);
}

#[test]
fn get_mut_writes_through() {
    let mut grid: Grid<i32> = Grid::new(2, 2);
    if let Some(v) = grid.get_mut(0, 1) {
        *v = 1;
    }
    assert!(grid.get_mut(0, 2).is_none());
    assert_eq!(grid.to_vec(), vec![vec![0, 1], vec![0, 0]]);
}

#[test]
fn fill_overwrites_every_cell() {
    let mut grid = Grid::from_vec(vec![vec![1, 0, 1], vec![0, 1, 0]]);
    grid.fill(0);
    assert_eq!(grid.to_vec(), vec![vec![0, 0, 0], vec![0, 0, 0]]);
    grid.fill(1);
    assert_eq!(grid.to_vec(), vec![vec![1, 1, 1], vec![1, 1, 1]]);
}
