use solver::board::{digit_in_mask, peers, Cell};
use solver::codec::{decode, encode, from_string};
use solver::propagate::propagate;
use solver::search::{solve_checking_uniqueness, solve_first, SolveOutcome};

#[test]
fn can_solve_banal_case_with_one_unknown() {
    let challenge =
        "081672439792843651364591782438957216256184973179326845845219367913768524627435198";
    let parsed = from_string(challenge).expect("Valid sudoku should give a sudoku board");
    let solved = solve_checking_uniqueness(&parsed);
    assert!(match solved {
        SolveOutcome::Unique(g) => {
            let s = encode(&g);
            println!("{}", s);
            true
        }
        _ => false,
    });
}

#[test]
fn solve_first_finds_a_full_solution() {
    let challenge =
        "174090600000038157530701004007349800840500360305006470286900001000627038053080096";
    let parsed = decode(challenge).unwrap();
    let solved = solve_first(&parsed).expect("this puzzle has a solution");
    assert!(solved.is_solved());
    // The solution extends the given clues.
    for i in 0..81 {
        if let Cell::Fixed(d) = parsed.get(i) {
            match solved.get(i) {
                Cell::Fixed(d2) => assert_eq!(d, d2),
                Cell::Candidates(_) => panic!("solved board must be all fixed"),
            }
        }
    }
}

#[test]
fn candidates_follow_peer_conflicts() {
    // Candidate 4 at (row 1, col 0) is rejected by a peer that holds 4;
    // candidate 2 at (row 0, col 3) conflicts with no peer.
    let text = "174090600000038157530701004007349800840500360305006470286900001000627038053080096";
    let board = decode(text).unwrap();
    let mut four_held_by_peer_of_9 = false;
    let mut two_held_by_peer_of_3 = false;
    for j in 0..81usize {
        if peers(9, j) {
            if let Cell::Fixed(4) = board.get(j) {
                four_held_by_peer_of_9 = true;
            }
        }
        if peers(3, j) {
            if let Cell::Fixed(2) = board.get(j) {
                two_held_by_peer_of_3 = true;
            }
        }
    }
    assert!(four_held_by_peer_of_9);
    assert!(!two_held_by_peer_of_3);
    // After propagation the rejected candidate is gone from cell (1, 0).
    let reduced = propagate(&board).expect("this board has no contradiction");
    match reduced.get(9) {
        Cell::Fixed(d) => assert_ne!(d, 4),
        Cell::Candidates(m) => assert!(!digit_in_mask(m, 4)),
    }
}

#[test]
fn propagation_is_idempotent() {
    let text = "174090600000038157530701004007349800840500360305006470286900001000627038053080096";
    let board = decode(text).unwrap();
    let once = propagate(&board).expect("no contradiction");
    let twice = propagate(&once).expect("still no contradiction");
    assert!(once.eq_board(&twice));
}

#[test]
fn a_completed_grid_is_its_own_unique_solution() {
    let solved_grid =
        "581672439792843651364591782438957216256184973179326845845219367913768524627435198";
    let parsed = decode(solved_grid).unwrap();
    assert!(parsed.is_solved());
    match solve_checking_uniqueness(&parsed) {
        SolveOutcome::Unique(u) => assert!(u.eq_board(&parsed)),
        _ => panic!("a valid completed grid must be reported unique"),
    }
}

#[test]
fn a_swappable_pair_is_reported_multiple() {
    // The full grid above with the rectangle (0,3),(0,4),(7,3),(7,4) blanked:
    // those four cells held 6,7 / 7,6 across two boxes, so swapping the two
    // digits gives a second valid completion.
    let two_ways =
        "581002439792843651364591782438957216256184973179326845845219367913008524627435198";
    let parsed = decode(two_ways).unwrap();
    assert!(matches!(
        solve_checking_uniqueness(&parsed),
        SolveOutcome::Multiple
    ));
}

#[test]
fn the_empty_board_is_solvable_but_not_unique() {
    let empty = ".................................................................................";
    assert_eq!(81, empty.len());
    let parsed = decode(empty).unwrap();
    let solved = solve_first(&parsed).expect("the empty board has completions");
    assert!(solved.is_solved());
    assert!(matches!(
        solve_checking_uniqueness(&parsed),
        SolveOutcome::Multiple
    ));
}

#[test]
fn a_board_with_a_contradiction_has_no_solution() {
    // Two 5s in the first row: propagation reports the contradiction and the
    // search reports that no solution exists.
    let bad = "550000000000000000000000000000000000000000000000000000000000000000000000000000000";
    let parsed = decode(bad).unwrap();
    assert!(propagate(&parsed).is_err());
    assert!(solve_first(&parsed).is_none());
    assert!(matches!(
        solve_checking_uniqueness(&parsed),
        SolveOutcome::NoSolution
    ));
}
