use solver::board::{digit_in_mask, Board, Cell};
use solver::codec::{decode, encode, from_string, update_sudoku, ParseError};

#[test]
fn an_empty_grid_can_be_parsed() {
    let grid = "000000000000000000000000000000000000000000000000000000000000000000000000000000000";
    assert_eq!(81, grid.len());
    let parsed_grid = from_string(grid);
    assert!(parsed_grid.is_ok());
}

#[test]
fn a_solved_grid_will_be_parsed_to_all_values() {
    let solved_grid =
        "581672439792843651364591782438957216256184973179326845845219367913768524627435198";
    assert_eq!(81, solved_grid.len());
    let parsed_grid = from_string(solved_grid).expect("Valid sudoku should give a sudoku board");
    assert!(parsed_grid.is_solved())
}

#[test]
fn decode_of_eighty_chars_is_wrong_length() {
    let grid = "00000000000000000000000000000000000000000000000000000000000000000000000000000000";
    assert_eq!(80, grid.len());
    assert!(matches!(decode(grid), Err(ParseError::WrongLength)));
}

#[test]
fn decode_with_a_letter_is_invalid_char() {
    let grid = "a0000000000000000000000000000000000000000000000000000000000000000000000000000000a";
    // 81 meaningful characters, two of them letters.
    assert!(matches!(decode(grid), Err(ParseError::InvalidChar)));
    let grid81 =
        "0000000000000000000000000000000000000000x0000000000000000000000000000000000000000";
    assert_eq!(81, grid81.len());
    assert!(matches!(decode(grid81), Err(ParseError::InvalidChar)));
}

#[test]
fn whitespace_between_groups_is_ignored() {
    let spaced =
        "581672439 792843651 364591782\n438957216 256184973 179326845\n845219367 913768524 627435198";
    let solid =
        "581672439792843651364591782438957216256184973179326845845219367913768524627435198";
    let a = decode(spaced).expect("spaced text should parse");
    let b = decode(solid).expect("solid text should parse");
    assert!(a.eq_board(&b));
}

#[test]
fn all_placeholders_mean_an_unknown_cell() {
    let with_dots = ".81672439792843651364591782438957216256184973179326845845219367913768524627435198";
    let with_zero = "081672439792843651364591782438957216256184973179326845845219367913768524627435198";
    let with_under = "_81672439792843651364591782438957216256184973179326845845219367913768524627435198";
    let a = decode(with_dots).unwrap();
    let b = decode(with_zero).unwrap();
    let c = decode(with_under).unwrap();
    assert!(a.eq_board(&b));
    assert!(a.eq_board(&c));
}

#[test]
fn encode_renders_unknown_cells_as_dots() {
    let text = "081672439792843651364591782438957216256184973179326845845219367913768524627435198";
    let board = decode(text).unwrap();
    let rendered = encode(&board);
    assert_eq!(
        rendered,
        ".81672439792843651364591782438957216256184973179326845845219367913768524627435198"
    );
}

#[test]
fn decode_encode_round_trip_on_a_full_grid() {
    let text = "581672439792843651364591782438957216256184973179326845845219367913768524627435198";
    let board = decode(text).unwrap();
    let rendered = encode(&board);
    assert_eq!(rendered, text);
    let board2 = decode(&rendered).unwrap();
    assert!(board.eq_board(&board2));
}

#[test]
fn decode_encode_round_trip_on_a_partial_grid() {
    let text = "174090600000038157530701004007349800840500360305006470286900001000627038053080096";
    let board = decode(text).unwrap();
    let rendered = encode(&board);
    let board2 = decode(&rendered).unwrap();
    assert!(board.eq_board(&board2));
}

#[test]
fn update_sudoku_replaces_one_cell() {
    let text = "081672439792843651364591782438957216256184973179326845845219367913768524627435198";
    let updated = update_sudoku(text, 0, 5).expect("updated text should parse");
    match updated.get(0) {
        Cell::Fixed(d) => assert_eq!(d, 5),
        Cell::Candidates(_) => panic!("cell 0 should be fixed after the update"),
    }
    // Guess 0 blanks the cell instead.
    let blanked = update_sudoku(text, 1, 0).expect("blanked text should parse");
    match blanked.get(1) {
        Cell::Fixed(_) => panic!("cell 1 should be unknown after blanking"),
        Cell::Candidates(m) => {
            for d in 1..=9u8 {
                assert!(digit_in_mask(m, d));
            }
        }
    }
}

#[test]
fn boards_compare_by_cells() {
    let a: Board = decode(
        "081672439792843651364591782438957216256184973179326845845219367913768524627435198",
    )
    .unwrap();
    let b = decode(
        "581672439792843651364591782438957216256184973179326845845219367913768524627435198",
    )
    .unwrap();
    assert!(!a.eq_board(&b));
    assert!(a.eq_board(&a));
}
