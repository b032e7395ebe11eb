use taquin_rust::grid::Position;
use taquin_rust::taquin::Tile::{Hole, Value};
use taquin_rust::taquin::{Move, Taquin, TaquinError, Tile};

fn a_taquin() -> Taquin {
    Taquin::from_tiles(
        3,
        vec![
            Value(5), Hole, Value(3),
            Value(8), Value(1), Value(2),
            Value(4), Value(7), Value(6),
        ],
    )
    .unwrap()
}

fn from_codes(size: u8, codes: Vec<u8>) -> Taquin {
    Taquin::from_tiles(size, codes.into_iter().map(Tile::from).collect()).unwrap()
}

#[test]
fn taquin_u8_to_tile() {
    assert_eq!(Tile::from(3), Value(3));
    assert_eq!(Tile::from(0), Hole);
    let tile: Tile = 0.into();
    assert_eq!(tile, Hole);
}

#[test]
fn all() {
    assert_eq!(Move::all().len(), 4);
    assert_eq!(Move::all(), vec![Move::Up, Move::Right, Move::Down, Move::Left]);
}

#[test]
fn reverse() {
    assert_eq!(Move::Up.reverse(), Move::Down);
    assert_eq!(Move::Right.reverse(), Move::Left);
    assert_eq!(Move::Down.reverse(), Move::Up);
    assert_eq!(Move::Left.reverse(), Move::Right);
}

#[test]
fn reverse_twice_is_the_move() {
    for m in Move::all() {
        assert_eq!(m.reverse().reverse(), m);
        assert_ne!(m.reverse(), m);
    }
}

#[test]
fn taquin_ok() {
    // from_str
    let taquin = Taquin::from_str(3, "5,0,3,  8,1,2,  4,7,6").unwrap();
    assert_eq!(taquin, a_taquin());

    // find_hole
    let taquin = a_taquin();
    let pos = taquin.find_hole();
    assert_eq!(pos, Position::new(0, 1));

    // move_hole
    let taquin = a_taquin();

    let moved = taquin.move_hole(Move::Up);
    assert_eq!(moved, Taquin::from_str(3, "5,1,3,  8,0,2,  4,7,6").unwrap());

    let moved = moved.move_hole(Move::Right);
    assert_eq!(moved, Taquin::from_str(3, "5,1,3,  0,8,2,  4,7,6").unwrap());

    let moved = moved.move_hole(Move::Down);
    assert_eq!(moved, Taquin::from_str(3, "0,1,3,  5,8,2,  4,7,6").unwrap());

    taquin.move_hole(Move::Left);
    assert_eq!(taquin, a_taquin());

    // is_valid
    let taquin = a_taquin();

    let pos = Position::new(0, 0);
    assert!(taquin.is_valid(Move::Up, &pos));
    assert!(!taquin.is_valid(Move::Right, &pos));
    assert!(!taquin.is_valid(Move::Down, &pos));
    assert!(taquin.is_valid(Move::Left, &pos));

    let pos = Position::new(0, 2);
    assert!(taquin.is_valid(Move::Up, &pos));
    assert!(taquin.is_valid(Move::Right, &pos));
    assert!(!taquin.is_valid(Move::Down, &pos));
    assert!(!taquin.is_valid(Move::Left, &pos));

    let pos = Position::new(2, 2);
    assert!(!taquin.is_valid(Move::Up, &pos));
    assert!(taquin.is_valid(Move::Right, &pos));
    assert!(taquin.is_valid(Move::Down, &pos));
    assert!(!taquin.is_valid(Move::Left, &pos));

    let pos = Position::new(2, 0);
    assert!(!taquin.is_valid(Move::Up, &pos));
    assert!(!taquin.is_valid(Move::Right, &pos));
    assert!(taquin.is_valid(Move::Down, &pos));
    assert!(taquin.is_valid(Move::Left, &pos));

    let pos = Position::new(1, 1);
    assert!(taquin.is_valid(Move::Up, &pos));
    assert!(taquin.is_valid(Move::Right, &pos));
    assert!(taquin.is_valid(Move::Down, &pos));
    assert!(taquin.is_valid(Move::Left, &pos));

    // valid_moves
    let taquin = a_taquin();
    let moves = taquin.valid_moves(None);
    assert_eq!(moves, vec![Move::Up, Move::Right, Move::Left]);
}

#[test]
fn ok_with_previous() {
    let taquin = a_taquin();
    let moves = taquin.valid_moves(Some(Move::Down));
    assert_eq!(moves, vec![Move::Right, Move::Left]);
}

#[test]
#[should_panic]
fn fail_size() {
    Taquin::from_str(1, "5,0,3,  8,1,2,  4,7,6").unwrap();
}

#[test]
#[should_panic]
fn fail_content() {
    Taquin::from_str(3, "5,0,3,  8,1,2,  4,7").unwrap();
}

#[test]
#[should_panic]
fn fail_no_hole() {
    Taquin::from_str(3, "5,10,3,  8,1,2,  4,7,6").unwrap();
}

#[test]
fn solved() {
    let taquin = Taquin::new(3).unwrap();
    assert!(taquin.is_solved())
}

#[test]
fn unsolved() {
    let taquin = a_taquin();
    assert!(!taquin.is_solved())
}

#[test]
fn get_position() {
    let taquin = Taquin::new(3).unwrap();

    assert_eq!(Position { row: 0, column: 0 }, taquin.get_position(0));
    assert_eq!(Position { row: 0, column: 1 }, taquin.get_position(1));
    assert_eq!(Position { row: 0, column: 2 }, taquin.get_position(2));
    assert_eq!(Position { row: 1, column: 0 }, taquin.get_position(3));
    assert_eq!(Position { row: 1, column: 1 }, taquin.get_position(4));
    assert_eq!(Position { row: 1, column: 2 }, taquin.get_position(5));
    assert_eq!(Position { row: 2, column: 0 }, taquin.get_position(6));
    assert_eq!(Position { row: 2, column: 1 }, taquin.get_position(7));
    assert_eq!(Position { row: 2, column: 2 }, taquin.get_position(8));
}

#[test]
fn get_position_goes_on_below_the_grid() {
    let taquin = Taquin::new(3).unwrap();
    assert_eq!(Position { row: 3, column: 0 }, taquin.get_position(9));
    assert_eq!(Position { row: 255, column: 2 }, taquin.get_position(767));
}

#[test]
fn get_index() {
    let taquin = Taquin::new(3).unwrap();

    assert_eq!(0, taquin.get_index(Position { row: 0, column: 0 }));
    assert_eq!(1, taquin.get_index(Position { row: 0, column: 1 }));
    assert_eq!(2, taquin.get_index(Position { row: 0, column: 2 }));
    assert_eq!(3, taquin.get_index(Position { row: 1, column: 0 }));
    assert_eq!(4, taquin.get_index(Position { row: 1, column: 1 }));
    assert_eq!(5, taquin.get_index(Position { row: 1, column: 2 }));
    assert_eq!(6, taquin.get_index(Position { row: 2, column: 0 }));
    assert_eq!(7, taquin.get_index(Position { row: 2, column: 1 }));
    assert_eq!(8, taquin.get_index(Position { row: 2, column: 2 }));
}

#[test]
fn find_hole() {
    let taquin = from_codes(3, vec![5, 0, 3, 8, 1, 2, 4, 7, 6]);

    assert_eq!(Position { row: 0, column: 1 }, taquin.find_hole());
}

#[test]
fn is_solved() {
    let taquin = Taquin::new(3).unwrap();
    assert!(taquin.is_solved());

    let taquin = from_codes(3, vec![5, 0, 3, 8, 1, 2, 4, 7, 6]);
    assert!(!taquin.is_solved());
}

#[test]
fn is_valid() {
    let taquin = Taquin::new(3).unwrap();

    let pos = Position { row: 0, column: 0 };
    assert!(taquin.is_valid(Move::Up, &pos));
    assert!(!taquin.is_valid(Move::Right, &pos));
    assert!(!taquin.is_valid(Move::Down, &pos));
    assert!(taquin.is_valid(Move::Left, &pos));

    let pos = Position { row: 0, column: 2 };
    assert!(taquin.is_valid(Move::Up, &pos));
    assert!(taquin.is_valid(Move::Right, &pos));
    assert!(!taquin.is_valid(Move::Down, &pos));
    assert!(!taquin.is_valid(Move::Left, &pos));

    let pos = Position { row: 2, column: 2 };
    assert!(!taquin.is_valid(Move::Up, &pos));
    assert!(taquin.is_valid(Move::Right, &pos));
    assert!(taquin.is_valid(Move::Down, &pos));
    assert!(!taquin.is_valid(Move::Left, &pos));

    let pos = Position { row: 2, column: 0 };
    assert!(!taquin.is_valid(Move::Up, &pos));
    assert!(!taquin.is_valid(Move::Right, &pos));
    assert!(taquin.is_valid(Move::Down, &pos));
    assert!(taquin.is_valid(Move::Left, &pos));

    let pos = Position { row: 1, column: 1 };
    assert!(taquin.is_valid(Move::Up, &pos));
    assert!(taquin.is_valid(Move::Right, &pos));
    assert!(taquin.is_valid(Move::Down, &pos));
    assert!(taquin.is_valid(Move::Left, &pos));
}

#[test]
fn move_hole() {
    let mut taquin = from_codes(3, vec![5, 0, 3, 8, 1, 2, 4, 7, 6]);

    taquin = taquin.move_hole(Move::Up);
    assert_eq!(vec![5, 1, 3, 8, 0, 2, 4, 7, 6], taquin.tiles());

    taquin = taquin.move_hole(Move::Right);
    assert_eq!(vec![5, 1, 3, 0, 8, 2, 4, 7, 6], taquin.tiles());

    taquin = taquin.move_hole(Move::Down);
    assert_eq!(vec![0, 1, 3, 5, 8, 2, 4, 7, 6], taquin.tiles());

    taquin = taquin.move_hole(Move::Left);
    assert_eq!(vec![1, 0, 3, 5, 8, 2, 4, 7, 6], taquin.tiles());
}

#[test]
fn illegal_move_leaves_an_equal_state() {
    let taquin = a_taquin();
    assert_eq!(taquin.move_hole(Move::Down), a_taquin());
    let solved = Taquin::new(4).unwrap();
    assert_eq!(solved.move_hole(Move::Up), Taquin::new(4).unwrap());
    assert_eq!(solved.move_hole(Move::Left), Taquin::new(4).unwrap());
}

#[test]
fn a_move_and_its_reverse_restore_the_state() {
    for codes in [vec![5, 0, 3, 8, 1, 2, 4, 7, 6], vec![1, 2, 3, 4, 0, 5, 6, 7, 8]] {
        let taquin = from_codes(3, codes);
        for m in taquin.valid_moves(None) {
            let there = taquin.move_hole(m);
            assert_ne!(there, taquin);
            assert_eq!(there.move_hole(m.reverse()), taquin);
        }
    }
}

#[test]
fn valid_moves_leave_out_the_reverse_of_the_last_move() {
    let centre = from_codes(3, vec![1, 2, 3, 4, 0, 5, 6, 7, 8]);
    assert_eq!(centre.valid_moves(None), Move::all());
    for last in Move::all() {
        let moves = centre.valid_moves(Some(last));
        assert_eq!(moves.len(), 3);
        assert!(!moves.contains(&last.reverse()));
        assert!(moves.contains(&last));
    }
    let corner = Taquin::new(3).unwrap();
    assert_eq!(corner.valid_moves(None), vec![Move::Right, Move::Down]);
    assert_eq!(corner.valid_moves(Some(Move::Left)), vec![Move::Down]);
    assert_eq!(corner.valid_moves(Some(Move::Up)), vec![Move::Right]);
    assert_eq!(corner.valid_moves(Some(Move::Right)), vec![Move::Right, Move::Down]);
}

#[test]
fn apply_move_gives_the_neighbour() {
    let hole = Position::new(1, 1);
    assert_eq!(Taquin::apply_move(&hole, Move::Up), Position::new(2, 1));
    assert_eq!(Taquin::apply_move(&hole, Move::Down), Position::new(0, 1));
    assert_eq!(Taquin::apply_move(&hole, Move::Right), Position::new(1, 0));
    assert_eq!(Taquin::apply_move(&hole, Move::Left), Position::new(1, 2));
}

#[test]
fn move_from_position_finds_the_move_of_a_neighbour() {
    let taquin = a_taquin();
    assert_eq!(taquin.move_from_position(Position::new(1, 1)), Some(Move::Up));
    assert_eq!(taquin.move_from_position(Position::new(0, 0)), Some(Move::Right));
    assert_eq!(taquin.move_from_position(Position::new(0, 2)), Some(Move::Left));
    assert_eq!(taquin.move_from_position(Position::new(0, 1)), None);
    assert_eq!(taquin.move_from_position(Position::new(2, 2)), None);
    assert_eq!(taquin.move_from_position(Position::new(255, 1)), None);
}

#[test]
fn new_builds_the_solved_layout() {
    assert_eq!(Taquin::new(2).unwrap().tiles(), vec![1, 2, 3, 0]);
    assert_eq!(Taquin::new(3).unwrap().tiles(), vec![1, 2, 3, 4, 5, 6, 7, 8, 0]);
    let largest = Taquin::new(16).unwrap();
    assert_eq!(largest.size(), 16);
    assert_eq!(largest.tiles().len(), 256);
    assert_eq!(largest.tiles()[254], 255);
    assert_eq!(largest.tiles()[255], 0);
    assert!(largest.is_solved());
    assert_eq!(largest.find_hole(), Position::new(15, 15));
}

#[test]
fn new_rejects_a_side_out_of_range() {
    assert_eq!(Taquin::new(0), Err(TaquinError::SizeTooSmall));
    assert_eq!(Taquin::new(1), Err(TaquinError::SizeTooSmall));
    assert_eq!(Taquin::new(17), Err(TaquinError::SizeTooLarge));
    assert_eq!(Taquin::new(255), Err(TaquinError::SizeTooLarge));
}

#[test]
fn from_tiles_names_the_first_flaw() {
    let tiles = |codes: &[u8]| codes.iter().map(|&c| Tile::from(c)).collect::<Vec<Tile>>();
    assert_eq!(Taquin::from_tiles(1, tiles(&[0])), Err(TaquinError::SizeTooSmall));
    assert_eq!(Taquin::from_tiles(17, tiles(&[0])), Err(TaquinError::SizeTooLarge));
    assert_eq!(Taquin::from_tiles(2, tiles(&[1, 2, 0])), Err(TaquinError::TileCount));
    assert_eq!(Taquin::from_tiles(2, tiles(&[1, 2, 3, 0, 0])), Err(TaquinError::TileCount));
    assert_eq!(Taquin::from_tiles(2, tiles(&[1, 2, 3, 3])), Err(TaquinError::MissingHole));
    assert_eq!(Taquin::from_tiles(2, tiles(&[1, 2, 4, 0])), Err(TaquinError::TileOutOfRange));
    assert_eq!(
        Taquin::from_tiles(2, vec![Value(1), Value(0), Value(3), Hole]),
        Err(TaquinError::TileOutOfRange)
    );
    assert_eq!(Taquin::from_tiles(2, tiles(&[1, 1, 3, 0])), Err(TaquinError::DuplicateTile));
    assert_eq!(Taquin::from_tiles(2, tiles(&[0, 1, 3, 0])), Err(TaquinError::DuplicateTile));
    assert_eq!(Taquin::from_tiles(2, tiles(&[3, 1, 0, 2])).map(|t| t.tiles()), Ok(vec![3, 1, 0, 2]));
}

#[test]
fn from_str_names_the_first_flaw() {
    assert_eq!(Taquin::from_str(1, "x"), Err(TaquinError::SizeTooSmall));
    assert_eq!(Taquin::from_str(17, "x"), Err(TaquinError::SizeTooLarge));
    assert_eq!(Taquin::from_str(2, "1,2,x,0"), Err(TaquinError::Syntax));
    assert_eq!(Taquin::from_str(2, "1,2,3,"), Err(TaquinError::Syntax));
    assert_eq!(Taquin::from_str(2, ""), Err(TaquinError::Syntax));
    assert_eq!(Taquin::from_str(2, "1,2,256,0"), Err(TaquinError::Syntax));
    assert_eq!(Taquin::from_str(2, "1,2,3"), Err(TaquinError::TileCount));
    assert_eq!(Taquin::from_str(2, "1,2,3,4"), Err(TaquinError::MissingHole));
    assert_eq!(Taquin::from_str(2, "1,2,9,0"), Err(TaquinError::TileOutOfRange));
    assert_eq!(Taquin::from_str(2, "1,2,2,0"), Err(TaquinError::DuplicateTile));
    assert_eq!(Taquin::from_str(2, " 1 ,\t+2,\n03 , 0 ").map(|t| t.tiles()), Ok(vec![1, 2, 3, 0]));
}

#[test]
fn rendering_shows_rows_and_a_dot_for_the_hole() {
    let taquin = Taquin::from_str(3, "5,0,3,  8,1,2,  4,7,6").unwrap();
    assert_eq!(taquin.to_string(), "5 · 3\n8 1 2\n4 7 6");
    assert_eq!(Taquin::new(2).unwrap().to_string(), "1 2\n3 ·");
    assert_eq!(
        Taquin::new(4).unwrap().to_string(),
        "1 2 3 4\n5 6 7 8\n9 10 11 12\n13 14 15 ·"
    );
}

#[test]
fn rendering_lists_the_tiles_of_the_text_it_was_built_from() {
    let text = "6,4,7,  8,5,0,  3,2,1";
    let taquin = Taquin::from_str(3, text).unwrap();
    let shown: Vec<String> = taquin
        .to_string()
        .split_whitespace()
        .map(|word| if word == "·" { String::from("0") } else { String::from(word) })
        .collect();
    let listed: Vec<String> = text.split(',').map(|word| String::from(word.trim())).collect();
    assert_eq!(shown, listed);
    assert_eq!(Taquin::from_str(3, &shown.join(",")).unwrap(), taquin);
}

#[test]
fn tiles_and_moves_as_text() {
    assert_eq!(Hole.to_string(), "·");
    assert_eq!(Value(7).to_string(), "7");
    assert_eq!(Value(42).to_string(), "42");
    assert_eq!(Value(100).to_string(), "100");
    assert_eq!(Value(255).to_string(), "255");
    assert_eq!(Move::Up.to_string(), "⬆️");
    assert_eq!(Move::Right.to_string(), "➡️");
    assert_eq!(Move::Down.to_string(), "⬇️");
    assert_eq!(Move::Left.to_string(), "⬅️");
}

#[test]
fn tile_codes() {
    assert_eq!(Hole.code(), 0);
    assert_eq!(Value(9).code(), 9);
}

#[test]
fn equal_states_are_the_same_and_share_a_digest() {
    let a = a_taquin();
    let b = Taquin::from_str(3, "5,0,3,8,1,2,4,7,6").unwrap();
    assert!(a.same(&b));
    assert_eq!(a.digest(), b.digest());
    let c = a.move_hole(Move::Up);
    assert!(!a.same(&c));
    assert!(!a.same(&Taquin::new(4).unwrap()));
    assert_eq!(Taquin::new(2).unwrap().digest(), (((2 * 31 + 1) * 31 + 2) * 31 + 3) * 31);
    assert!(a.clone().same(&a));
}

#[test]
fn scramble_makes_the_chosen_move() {
    let mut taquin = Taquin::new(3).unwrap();
    assert_eq!(taquin.scramble(None, 0), Move::Right);
    assert_eq!(taquin.tiles(), vec![1, 2, 3, 4, 5, 6, 7, 0, 8]);
    assert_eq!(taquin.scramble(Some(Move::Right), 1), Move::Down);
    assert_eq!(taquin.tiles(), vec![1, 2, 3, 4, 0, 6, 7, 5, 8]);
    assert_eq!(taquin.scramble(Some(Move::Down), 3), Move::Right);
    assert_eq!(taquin.scramble(Some(Move::Right), 7), Move::Down);
    assert_eq!(taquin.tiles(), vec![0, 2, 3, 1, 4, 6, 7, 5, 8]);
}

#[test]
fn shuffle_keeps_a_valid_puzzle_of_the_same_side() {
    for size in 2..=4 {
        let mut taquin = Taquin::new(size).unwrap();
        taquin.shuffle(25);
        assert_eq!(taquin.size(), size);
        let mut codes = taquin.tiles();
        codes.sort();
        let cells = size as usize * size as usize;
        assert_eq!(codes, (0..cells).map(|c| c as u8).collect::<Vec<u8>>());
    }
    let mut taquin = Taquin::new(3).unwrap();
    taquin.shuffle(0);
    assert!(taquin.is_solved());
}

#[test]
fn shuffle_draws_each_offered_move() {
    let mut right = 0;
    let mut down = 0;
    for _ in 0..64 {
        let mut taquin = Taquin::new(3).unwrap();
        taquin.shuffle(1);
        match taquin.find_hole() {
            Position { row: 2, column: 1 } => right += 1,
            Position { row: 1, column: 2 } => down += 1,
            other => panic!("the hole went to {:?}", other),
        }
    }
    assert!(right > 0);
    assert!(down > 0);
}
