use solver::board::Cell;
use solver::codec::{decode, encode};
use solver::generate::{generate_filled, generate_unique_from};
use solver::puzzle::{generate_puzzle, puzzle_from_sudoku};
use solver::rng::Rng;
use solver::search::{solve_checking_uniqueness, SolveOutcome};

fn digit_at(board: &solver::board::Board, i: usize) -> u8 {
    match board.get(i) {
        Cell::Fixed(d) => d,
        Cell::Candidates(_) => 0,
    }
}

#[test]
fn generated_grids_have_every_digit_in_every_group() {
    let mut rng = Rng::new(20240901);
    let board = generate_filled(&mut rng);
    assert!(board.is_solved());
    for g in 0..9usize {
        let mut row_seen = [false; 10];
        let mut col_seen = [false; 10];
        let mut box_seen = [false; 10];
        for k in 0..9usize {
            row_seen[digit_at(&board, 9 * g + k) as usize] = true;
            col_seen[digit_at(&board, 9 * k + g) as usize] = true;
            let bi: usize = 27 * (g / 3) + 3 * (g % 3) + 9 * (k / 3) + k % 3;
            box_seen[digit_at(&board, bi) as usize] = true;
        }
        for d in 1..=9usize {
            // Nine cells, nine digits, all present: each appears exactly once.
            assert!(row_seen[d] && col_seen[d] && box_seen[d]);
        }
    }
}

#[test]
fn carved_puzzles_keep_their_solution_unique() {
    let mut rng = Rng::new(7);
    let filled = generate_filled(&mut rng);
    let carved = generate_unique_from(&filled, &mut rng);
    match solve_checking_uniqueness(&carved) {
        SolveOutcome::Unique(u) => assert!(u.eq_board(&filled)),
        _ => panic!("a carved puzzle must keep exactly one solution"),
    }
    // Clues of the puzzle agree with the solution.
    for i in 0..81 {
        if let Cell::Fixed(d) = carved.get(i) {
            assert_eq!(d, digit_at(&filled, i));
        }
    }
}

#[test]
fn carved_puzzles_are_locally_irreducible() {
    let mut rng = Rng::new(99);
    let filled = generate_filled(&mut rng);
    let carved = generate_unique_from(&filled, &mut rng);
    let text = encode(&carved);
    for i in 0..81usize {
        if let Cell::Fixed(_) = carved.get(i) {
            let reblanked = solver::codec::update_sudoku(&text, i, 0)
                .expect("re-blanked text should still parse");
            match solve_checking_uniqueness(&reblanked) {
                SolveOutcome::Unique(_) => {
                    panic!("removing one more clue must never leave a unique puzzle")
                }
                _ => {}
            }
        }
    }
}

#[test]
fn a_fixed_seed_replays_the_same_puzzle() {
    let mut rng1 = Rng::new(123456);
    let mut rng2 = Rng::new(123456);
    let p1 = generate_puzzle(&mut rng1);
    let p2 = generate_puzzle(&mut rng2);
    assert_eq!(p1.puzzle, p2.puzzle);
    assert_eq!(p1.solution, p2.solution);
    let mut rng3 = Rng::new(654321);
    let p3 = generate_puzzle(&mut rng3);
    assert_ne!(p1.solution, p3.solution);
}

#[test]
fn generated_puzzles_decode_to_a_unique_puzzle() {
    let mut rng = Rng::new(31415);
    let p = generate_puzzle(&mut rng);
    let solution = decode(&p.solution).expect("solution text parses");
    assert!(solution.is_solved());
    let puzzle = decode(&p.puzzle).expect("puzzle text parses");
    match solve_checking_uniqueness(&puzzle) {
        SolveOutcome::Unique(u) => assert!(u.eq_board(&solution)),
        _ => panic!("the generated puzzle must have exactly its one solution"),
    }
}

#[test]
fn puzzle_rows_carry_id_and_clue_count() {
    let row = puzzle_from_sudoku(String::from("12.4."), String::from("12345"));
    assert_eq!(row.num_clues, 3);
    assert_eq!(row.puzzle, "12.4.");
    assert_eq!(row.solution, "12345");
    assert_eq!(row.id.len(), 26);
    let other = puzzle_from_sudoku(String::from("....."), String::from("12345"));
    assert_eq!(other.num_clues, 0);
    assert_ne!(row.id, other.id);
}
