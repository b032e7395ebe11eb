use taquin_rust::grid::{Grid, GridError, Position};

fn a_grid() -> Grid<i32> {
    Grid::new(2, vec![1, 2, 3, 4]).unwrap()
}

#[test]
fn grid_ok() {
    let pos = a_grid().index_to_position(2);
    assert_eq!(pos, Some(Position::new(1, 0)));

    let pos = Position::new(1, 0);
    let index = a_grid().position_to_index(&pos);
    assert_eq!(index, Some(2));
}

#[test]
fn grid_out_of_bound() {
    let pos = a_grid().index_to_position(4);
    assert_eq!(pos, None);

    let pos = Position::new(2, 0);
    let index = a_grid().position_to_index(&pos);
    assert_eq!(index, None);
}

#[test]
fn find_success() {
    let found = a_grid().find(|&i| i == 2);
    assert_eq!(found, Some(Position::new(0, 1)));
}

#[test]
fn find_failure() {
    let found = a_grid().find(|&i| i == 5);
    assert_eq!(found, None);
}

#[test]
fn swap_iso() {
    let mut grid = a_grid();
    let pos = Position::new(0, 0);
    grid.swap(&pos, &pos);
    assert_eq!(grid, a_grid());
}

#[test]
fn swap() {
    let mut grid = a_grid();
    let pos1 = Position::new(0, 0);
    let pos2 = Position::new(1, 1);
    grid.swap(&pos1, &pos2);
    let expected = vec![4, 2, 3, 1];
    assert_eq!(grid.iter().copied().collect::<Vec<i32>>(), expected);
}

#[test]
fn new_rejects_wrong_length() {
    assert_eq!(Grid::new(2, vec![1, 2, 3]), Err(GridError::ContentLength));
    assert_eq!(Grid::<i32>::new(0, vec![]).map(|g| g.size()), Ok(0));
}
