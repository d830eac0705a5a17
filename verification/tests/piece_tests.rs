use chromosaic::grid::Coord;
use chromosaic::piece::Piece;
use chromosaic::text::NumberError;

fn sorted_moves(piece: &Piece) -> Vec<(i32, i32)> {
    let mut moves: Vec<(i32, i32)> = piece.moves().iter().map(|c| (c.x, c.y)).collect();
    moves.sort();
    moves
}

#[test]
fn knight_has_eight_moves() {
    let knight = Piece::new("knight", &[Coord::new(1, 2)]);
    assert_eq!(knight.name, "knight");
    assert_eq!(
        sorted_moves(&knight),
        vec![(-2, -1), (-2, 1), (-1, -2), (-1, 2), (1, -2), (1, 2), (2, -1), (2, 1)]
    );
}

#[test]
fn symmetric_base_moves_are_not_repeated() {
    assert_eq!(sorted_moves(&Piece::new("ferz", &[Coord::new(1, 1)])), vec![(-1, -1), (-1, 1), (1, -1), (1, 1)]);
    assert_eq!(sorted_moves(&Piece::new("wazir", &[Coord::new(0, 1)])), vec![(-1, 0), (0, -1), (0, 1), (1, 0)]);
    assert_eq!(sorted_moves(&Piece::new("stay", &[Coord::new(0, 0)])), vec![(0, 0)]);
}

#[test]
fn moves_follow_the_base_moves_in_order() {
    let piece = Piece::new("mixed", &[Coord::new(0, 1), Coord::new(1, 1)]);
    let moves: Vec<(i32, i32)> = piece.moves().iter().map(|c| (c.x, c.y)).collect();
    assert_eq!(moves, vec![(0, 1), (0, -1), (1, 0), (-1, 0), (1, 1), (1, -1), (-1, 1), (-1, -1)]);
}

#[test]
fn a_piece_without_base_moves_has_no_moves() {
    assert!(Piece::new("idle", &[]).moves().is_empty());
}

#[test]
fn from_name_finds_the_first_match() {
    let list = vec![
        Piece::new("wazir", &[Coord::new(1, 0)]),
        Piece::new("ferz", &[Coord::new(1, 1)]),
        Piece::new("ferz", &[Coord::new(2, 2)]),
    ];
    let found = Piece::from_name("ferz", &list);
    assert_eq!(found.name, "ferz");
    assert_eq!(found.moves(), list[1].moves());
}

#[test]
fn from_name_falls_back_to_a_knight() {
    let list = vec![Piece::new("wazir", &[Coord::new(1, 0)])];
    let found = Piece::from_name("dragon", &list);
    assert_eq!(found.name, "Knight");
    assert_eq!(found.moves(), Piece::new("x", &[Coord::new(1, 2)]).moves());
}

#[test]
fn cloned_piece_is_equal() {
    let piece = Piece::new("camel", &[Coord::new(3, 1)]);
    let copy = piece.clone();
    assert_eq!(copy.name, piece.name);
    assert_eq!(copy.moves(), piece.moves());
}

#[test]
fn piece_list_is_parsed() {
    let content = "knight: 1,2\n# a comment line\n\n  wazir : 1,0 # one step\nnot a piece\ncamel:3,1; 0,0;junk\r\nlast:-5, +7";
    let pieces = Piece::build_piece_list(content).ok().expect("valid list");
    let names: Vec<&str> = pieces.iter().map(|p| p.name.as_str()).collect();
    assert_eq!(names, vec!["knight", "wazir ", "camel", "last"]);
    assert_eq!(pieces[0].moves(), Piece::new("k", &[Coord::new(1, 2)]).moves());
    assert_eq!(pieces[1].moves(), Piece::new("w", &[Coord::new(1, 0)]).moves());
    assert_eq!(pieces[2].moves(), Piece::new("c", &[Coord::new(3, 1), Coord::new(0, 0)]).moves());
    assert_eq!(pieces[3].moves(), Piece::new("l", &[Coord::new(-5, 7)]).moves());
}

#[test]
fn empty_piece_list_has_no_pieces() {
    assert!(Piece::build_piece_list("").ok().expect("empty").is_empty());
    assert!(Piece::build_piece_list("\n\n# only comments\n").ok().expect("comments").is_empty());
}

#[test]
fn bad_numbers_are_reported() {
    assert_eq!(Piece::build_piece_list("a: x,1").err(), Some(NumberError::InvalidDigit));
    assert_eq!(Piece::build_piece_list("a: ,1").err(), Some(NumberError::Empty));
    assert_eq!(Piece::build_piece_list("a: 1,").err(), Some(NumberError::Empty));
    assert_eq!(Piece::build_piece_list("a: +,1").err(), Some(NumberError::InvalidDigit));
    assert_eq!(Piece::build_piece_list("a: 2147483648,0").err(), Some(NumberError::PosOverflow));
    assert_eq!(Piece::build_piece_list("a: -2147483649,0").err(), Some(NumberError::NegOverflow));
    assert_eq!(Piece::build_piece_list("a: 1,2\nb: 3,y").err(), Some(NumberError::InvalidDigit));
}

#[test]
fn extreme_numbers_parse() {
    let pieces = Piece::build_piece_list("a: 2147483647,-2147483647").ok().expect("in range");
    let moves: Vec<(i32, i32)> = pieces[0].moves().iter().map(|c| (c.x, c.y)).collect();
    assert_eq!(moves[0], (2147483647, -2147483647));
}

#[test]
fn piece_types_are_sorted() {
    let list = vec![
        Piece::new("wazir", &[]),
        Piece::new("Knight", &[]),
        Piece::new("camel", &[]),
        Piece::new("alfil", &[]),
        Piece::new("camelopard", &[]),
        Piece::new("camel", &[]),
    ];
    assert_eq!(
        Piece::get_all_piece_types(&list),
        vec!["Knight", "alfil", "camel", "camel", "camelopard", "wazir"]
    );
    assert!(Piece::get_all_piece_types(&[]).is_empty());
}

#[test]
fn negatable_piece_lists_are_recognized() {
    assert!(Piece::piece_list_is_negatable(""));
    assert!(Piece::piece_list_is_negatable("knight: 1,2\nwazir: 1,0"));
    assert!(Piece::piece_list_is_negatable("a: 2147483647,-2147483647"));
    assert!(!Piece::piece_list_is_negatable("a: -2147483648,0"));
    assert!(!Piece::piece_list_is_negatable("a: 1,2\nb: 0,-2147483648"));
    // The number in a comment, in a name or in a number too long for `i32` is no move.
    assert!(Piece::piece_list_is_negatable("a: 1,2 # -2147483648,0"));
    assert!(Piece::piece_list_is_negatable("-2147483648: 1,2"));
    assert!(Piece::piece_list_is_negatable("a: 12147483648,0"));
    // Nothing is built after the first bad number.
    assert!(Piece::piece_list_is_negatable("a: x,1\nb: -2147483648,0"));
    assert!(!Piece::piece_list_is_negatable("b: -2147483648,0\na: x,1"));
}
