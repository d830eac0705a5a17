use chromosaic::text::{display_piece_name, with_first_replaced};

#[test]
fn display_name_capitalizes_the_first_letter() {
    assert_eq!(display_piece_name("knight"), "Knight");
    assert_eq!(display_piece_name("Camel"), "Camel");
    assert_eq!(display_piece_name("éclair"), "Éclair");
    assert_eq!(display_piece_name("ßa"), "SSa");
    assert_eq!(display_piece_name("1st"), "1st");
}

#[test]
fn display_name_of_nothing_is_unknown() {
    assert_eq!(display_piece_name(""), "Unknown");
}

#[test]
fn first_character_is_replaced_by_its_upper_case_text() {
    assert_eq!(with_first_replaced("SS".to_string(), "ßa"), "SSa");
    assert_eq!(with_first_replaced("K".to_string(), "k"), "K");
    assert_eq!(with_first_replaced(String::new(), "éclair"), "clair");
}
