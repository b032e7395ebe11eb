use taquin_rust::solver::{solve, Problem, SolverError};
use taquin_rust::taquin::Move::{Down, Left, Right, Up};
use taquin_rust::taquin::{Taquin, Tile};

fn layout(size: u8, codes: &[u8]) -> Taquin {
    Taquin::from_tiles(size, codes.iter().map(|&c| Tile::from(c)).collect()).unwrap()
}

#[test]
fn already_solved() {
    let taquin = Taquin::new(3).unwrap();
    let result = taquin.solve();
    assert_eq!(result, Ok(vec![]))
}

#[test]
fn solve_one_move() {
    let mut taquin = Taquin::new(3).unwrap();
    taquin.shuffle(1);
    let result = taquin.solve().unwrap();
    assert_eq!(result.len(), 1)
}

#[test]
fn solve_few_moves() {
    let mut taquin = Taquin::new(3).unwrap();
    taquin.shuffle(5);
    let result = taquin.solve().expect("Oops!");
    println!("Solve in {} moves", result.len());
    assert_eq!(result.len(), 5);
}

#[test]
fn solving_takes_no_more_moves_than_scrambling() {
    for k in 0..12u32 {
        let mut taquin = Taquin::new(3).unwrap();
        taquin.shuffle(k);
        let result = taquin.solve().unwrap();
        assert!(result.len() <= k as usize);
        let end = result.iter().fold(taquin, |t, m| t.move_hole(*m));
        assert!(end.is_solved());
    }
    let mut taquin = Taquin::new(4).unwrap();
    taquin.shuffle(8);
    assert!(taquin.solve().unwrap().len() <= 8);
}

#[test]
fn solve_3x3() {
    let taquin = layout(3, &[5, 0, 3, 8, 1, 2, 4, 7, 6]);
    let result = taquin.solve().unwrap();
    assert_eq!(17, result.len());
    let end = result.iter().fold(taquin, |t, m| t.move_hole(*m));
    assert!(end.is_solved());
}

#[test]
fn solve_a_3x3() {
    let taquin = layout(3, &[6, 4, 7, 8, 5, 0, 3, 2, 1]);
    let result = taquin.solve().expect("Oops!");
    println!("Solve in {} moves", result.len());
    assert_eq!(result.len(), 31);

    let end = result.iter().fold(taquin, |t, m| t.move_hole(*m));

    assert!(end.is_solved())
}

#[test]
fn unsolvable_layout_is_reported() {
    let taquin = layout(2, &[2, 1, 3, 0]);
    assert_eq!(solve(&taquin), Err(SolverError::NoSolutionFound));
    let taquin = layout(3, &[2, 1, 3, 4, 5, 6, 7, 8, 0]);
    assert_eq!(taquin.solve(), Err(SolverError::NoSolutionFound));
}

#[test]
fn first_of_the_shortest_solutions_in_move_order() {
    let taquin = layout(3, &[5, 0, 3, 8, 1, 2, 4, 7, 6]);
    let result = solve(&taquin).unwrap();
    assert_eq!(
        result,
        vec![Up, Right, Up, Left, Down, Left, Up, Right, Right, Down, Down, Left, Up, Right, Up, Left, Left]
    );
    assert!(Problem::is_solved(&Taquin::new(4).unwrap()));
}
