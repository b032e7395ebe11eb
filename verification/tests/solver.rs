use taquin_rust::solver::{solve, solve_aux, SolverError};
use taquin_rust::taquin::{Move, Taquin, Tile};

#[test]
fn solver_u8_to_tile() {
    let i = 3;
    let tile: Tile = i.into();
    assert_eq!(tile, Tile::Value(3));
}

#[test]
fn solve_aux_searches_from_the_state_it_is_given() {
    let taquin = Taquin::from_str(2, "1,2,0,3").unwrap();
    assert_eq!(solve_aux(taquin), Ok(vec![Move::Left]));
    let taquin = Taquin::from_str(2, "0,1,3,2").unwrap();
    assert_eq!(solve_aux(taquin), Ok(vec![Move::Left, Move::Up]));
}

#[test]
fn every_2x2_state_is_solved_in_at_most_six_moves_or_not_at_all() {
    let mut solvable = 0;
    let mut unsolvable = 0;
    let mut longest = 0;
    let orders: Vec<Vec<u8>> = permutations(vec![0, 1, 2, 3]);
    assert_eq!(orders.len(), 24);
    for codes in orders {
        let text: Vec<String> = codes.iter().map(|c| format!("{}", c)).collect();
        let taquin = Taquin::from_str(2, &text.join(",")).unwrap();
        match solve(&taquin) {
            Ok(moves) => {
                solvable += 1;
                longest = longest.max(moves.len());
                let end = moves.iter().fold(taquin, |t, m| {
                    assert!(t.valid_moves(None).contains(m));
                    t.move_hole(*m)
                });
                assert!(end.is_solved());
            }
            Err(e) => {
                assert_eq!(e, SolverError::NoSolutionFound);
                unsolvable += 1;
            }
        }
    }
    assert_eq!(solvable, 12);
    assert_eq!(unsolvable, 12);
    assert_eq!(longest, 6);
}

fn permutations(items: Vec<u8>) -> Vec<Vec<u8>> {
    if items.len() <= 1 {
        return vec![items];
    }
    let mut all = Vec::new();
    for i in 0..items.len() {
        let mut rest = items.clone();
        let first = rest.remove(i);
        for mut tail in permutations(rest) {
            tail.insert(0, first);
            all.push(tail);
        }
    }
    all
}
