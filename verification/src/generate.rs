//! The generator: produce a fully solved board from nothing, then carve it
//! down to a locally-irreducible puzzle — visit every cell once, in random
//! order, blank it, and keep the blank only when the solution stays unique.

use crate::board::{box_of, cell_digit, cell_wf, col_of, is_peer, row_of, Board, Cell, ALL_DIGITS};
use crate::model::{
    blank_one, completion_of, lemma_relaxation_completion, lemma_relaxation_two, no_conflict,
    relaxation_of, solved, two_completions,
};
use crate::codec::puzzle_form;
use crate::rng::{shuffle, Rng};
use crate::search::{solve_checking_uniqueness, solve_first_random, SolveOutcome};
use vstd::arithmetic::div_mod::{
    lemma_fundamental_div_mod, lemma_mod_division_less_than_divisor, lemma_mod_multiples_vanish,
};
use vstd::prelude::*;

verus! {

// ------------------------------------------------------------------
// A solved grid exists: the cyclic grid whose digit at cell i is a fixed
// permutation of (3*row + row/3 + col) mod 9. This witness makes the search
// on the empty board provably total.
// ------------------------------------------------------------------

spec fn cyc_digit(i: int) -> int {
    ((i / 9) * 3 + (i / 9) / 3 + (i % 9)) % 9 + 1
}

spec fn witness_grid() -> Seq<Cell> {
    Seq::new(81, |i: int| Cell::Fixed(cyc_digit(i) as u8))
}

/// Two integers with equal residues mod 9 and less than 9 apart are equal.
proof fn lemma_mod9_injective(x: int, y: int)
    requires
        x % 9 == y % 9,
        -9 < x - y < 9,
    ensures
        x == y,
{
    lemma_fundamental_div_mod(x, 9);
    lemma_fundamental_div_mod(y, 9);
    let k = x / 9 - y / 9;
    assert(x - y == 9 * k);
    assert(k == 0);
}

/// Peer cells of the cyclic grid carry different digits.
proof fn lemma_cyc_peer_distinct(i: int, j: int)
    requires
        is_peer(i, j),
    ensures
        cyc_digit(i) != cyc_digit(j),
{
    let r1 = i / 9;
    let c1 = i % 9;
    let r2 = j / 9;
    let c2 = j % 9;
    lemma_fundamental_div_mod(i, 9);
    lemma_mod_division_less_than_divisor(i, 9);
    lemma_fundamental_div_mod(j, 9);
    lemma_mod_division_less_than_divisor(j, 9);
    let a1 = r1 / 3;
    let b1 = r1 % 3;
    let a2 = r2 / 3;
    let b2 = r2 % 3;
    lemma_fundamental_div_mod(r1, 3);
    lemma_mod_division_less_than_divisor(r1, 3);
    lemma_fundamental_div_mod(r2, 3);
    lemma_mod_division_less_than_divisor(r2, 3);
    let e1 = c1 / 3;
    let f1 = c1 % 3;
    let e2 = c2 / 3;
    let f2 = c2 % 3;
    lemma_fundamental_div_mod(c1, 3);
    lemma_mod_division_less_than_divisor(c1, 3);
    lemma_fundamental_div_mod(c2, 3);
    lemma_mod_division_less_than_divisor(c2, 3);
    let x = r1 * 3 + r1 / 3 + c1;
    let y = r2 * 3 + r2 / 3 + c2;
    let s1 = a1 + 3 * b1 + c1;
    let s2 = a2 + 3 * b2 + c2;
    assert(x == 9 * a1 + s1);
    assert(y == 9 * a2 + s2);
    lemma_mod_multiples_vanish(a1, s1, 9);
    lemma_mod_multiples_vanish(a2, s2, 9);
    assert(x % 9 == s1 % 9 && y % 9 == s2 % 9);
    // The box coordinate i / 27 coincides with the row band r1 / 3.
    lemma_fundamental_div_mod(i, 27);
    lemma_mod_division_less_than_divisor(i, 27);
    lemma_fundamental_div_mod(j, 27);
    lemma_mod_division_less_than_divisor(j, 27);
    assert(i == 27 * a1 + (9 * b1 + c1) && 0 <= 9 * b1 + c1 < 27);
    assert(i / 27 == a1) by {
        let q1 = i / 27;
        assert(27 * (q1 - a1) == (9 * b1 + c1) - i % 27);
    }
    assert(j / 27 == a2) by {
        let q2 = j / 27;
        assert(27 * (q2 - a2) == (9 * b2 + c2) - j % 27);
    }
    if cyc_digit(i) == cyc_digit(j) {
        assert(s1 % 9 == s2 % 9);
        if row_of(i) == row_of(j) {
            lemma_mod9_injective(s1, s2);
            assert(i == j);
        } else if col_of(i) == col_of(j) {
            lemma_mod9_injective(s1, s2);
            assert(a1 + 3 * b1 == a2 + 3 * b2);
            assert(b1 == b2 && a1 == a2);
            assert(r1 == r2);
        } else {
            assert(box_of(i) == box_of(j));
            assert(3 * a1 + e1 == 3 * a2 + e2);
            assert(a1 == a2 && e1 == e2);
            lemma_mod9_injective(s1, s2);
            assert(3 * b1 + f1 == 3 * b2 + f2);
            assert(b1 == b2 && f1 == f2);
            assert(i == j);
        }
    }
}

proof fn lemma_witness_solved()
    ensures
        solved(witness_grid()),
{
    let w = witness_grid();
    assert forall|i: int| 0 <= i < 81 implies cell_wf(#[trigger] w[i]) by {
        lemma_mod_division_less_than_divisor((i / 9) * 3 + (i / 9) / 3 + (i % 9), 9);
    }
    assert forall|i: int, j: int|
        #[trigger] is_peer(i, j) && w[i] is Fixed && w[j] is Fixed implies cell_digit(w[i])
        != cell_digit(w[j]) by {
        lemma_cyc_peer_distinct(i, j);
        lemma_mod_division_less_than_divisor((i / 9) * 3 + (i / 9) / 3 + (i % 9), 9);
        lemma_mod_division_less_than_divisor((j / 9) * 3 + (j / 9) / 3 + (j % 9), 9);
    }
}

proof fn lemma_empty_has_completion(b: Seq<Cell>)
    requires
        b.len() == 81,
        forall|i: int| 0 <= i < 81 ==> #[trigger] b[i] == Cell::Candidates(ALL_DIGITS),
    ensures
        completion_of(witness_grid(), b),
{
    lemma_witness_solved();
    let w = witness_grid();
    assert forall|i: int| 0 <= i < 81 implies crate::model::admits(#[trigger] b[i], w[i]) by {
        assert(cell_wf(w[i]));
        crate::model::lemma_all_digits(cell_digit(w[i]));
    }
}

/// Produces a fully solved board: the search runs over the all-unknown board
/// with candidate order drawn from `rng`, so repeated calls yield different
/// grids; it cannot fail, since a completion of the empty board exists.
pub fn generate_filled(rng: &mut Rng) -> (r: Board)
    ensures
        r.wf(),
        solved(r@),
        crate::groups::grid_complete(r@),
{
    let empty = Board::empty();
    match solve_first_random(&empty, rng) {
        Some(s) => {
            proof {
                assert(completion_of(s@, empty@));
                crate::groups::lemma_solved_grid_complete(s@);
            }
            s
        },
        None => {
            proof {
                lemma_empty_has_completion(empty@);
                assert(false);
            }
            vstd::pervasive::unreached()
        },
    }
}

/// Carves a solved board down to a puzzle whose unique completion is that
/// very board. Each of the 81 cells is visited exactly once, in an order
/// drawn from `rng`; the visited cell is blanked for good exactly when the
/// board stays uniquely solvable without it. Afterwards no single further
/// blanking can leave a unique puzzle: every fixed cell of the result, once
/// re-blanked, leaves a board that two distinct solved grids complete.
#[verifier::loop_isolation(false)]
pub fn generate_unique_from(solution: &Board, rng: &mut Rng) -> (r: Board)
    requires
        solution.wf(),
        solved(solution@),
    ensures
        r.wf(),
        puzzle_form(r@),
        completion_of(solution@, r@),
        forall|sol: Seq<Cell>| #[trigger] completion_of(sol, r@) ==> sol == solution@,
        forall|i: int| 0 <= i < 81 && (#[trigger] r@[i]) is Fixed ==> r@[i] == solution@[i],
        forall|i: int|
            0 <= i < 81 && (#[trigger] r@[i]) is Fixed ==> two_completions(blank_one(r@, i)),
{
    let mut base: Vec<usize> = Vec::new();
    let mut t: usize = 0;
    while t < 81
        invariant
            t <= 81,
            base@.len() == t,
            forall|k: int| 0 <= k < t ==> base@[k] == k,
        decreases 81 - t,
    {
        base.push(t);
        t = t + 1;
    }
    let ghost base_view = base@;
    let order = shuffle(base, rng);
    proof {
        assert forall|k: int| 0 <= k < order@.len() implies #[trigger] order@[k] < 81 by {
            assert(base_view.contains(order@[k]));
            let w = choose|w: int| 0 <= w < base_view.len() && base_view[w] == order@[k];
        }
        crate::model::lemma_solved_self(solution@);
    }
    let mut cur = solution.duplicate();
    let mut k: usize = 0;
    while k < order.len()
        invariant
            k <= order@.len(),
            cur.wf(),
            puzzle_form(cur@),
            completion_of(solution@, cur@),
            forall|sol: Seq<Cell>| #[trigger] completion_of(sol, cur@) ==> sol == solution@,
            forall|i: int| 0 <= i < 81 && (#[trigger] cur@[i]) is Fixed ==> cur@[i] == solution@[i],
            forall|k2: int|
                0 <= k2 < k && cur@[#[trigger] order@[k2] as int] is Fixed ==> two_completions(
                    blank_one(cur@, order@[k2] as int),
                ),
        decreases order@.len() - k,
    {
        let i = order[k];
        if let Cell::Fixed(_) = cur.get(i) {
            let mut cand = cur.duplicate();
            cand.set_cell(i, Cell::Candidates(ALL_DIGITS));
            proof {
                assert(cand@ == blank_one(cur@, i as int));
                assert(relaxation_of(cand@, cur@));
                lemma_relaxation_completion(cand@, cur@, solution@);
            }
            match solve_checking_uniqueness(&cand) {
                SolveOutcome::Unique(u) => {
                    let ghost prev = cur@;
                    cur = cand;
                    proof {
                        assert(u@ == solution@);
                        assert forall|sol: Seq<Cell>| #[trigger]
                            completion_of(sol, cur@) implies sol == solution@ by {
                            assert(sol == u@);
                        }
                        assert forall|k2: int|
                            0 <= k2 < k + 1 && cur@[#[trigger] order@[k2] as int] is Fixed implies two_completions(
                            blank_one(cur@, order@[k2] as int),
                        ) by {
                            let j = order@[k2] as int;
                            assert(j != i as int);
                            assert(prev[j] == cur@[j]);
                            assert(k2 < k);
                            assert(two_completions(blank_one(prev, j)));
                            assert(relaxation_of(blank_one(cur@, j), blank_one(prev, j)));
                            lemma_relaxation_two(blank_one(cur@, j), blank_one(prev, j));
                        }
                    }
                },
                SolveOutcome::Multiple => {
                    proof {
                        assert(two_completions(cand@));
                        assert forall|k2: int|
                            0 <= k2 < k + 1 && cur@[#[trigger] order@[k2] as int] is Fixed implies two_completions(
                            blank_one(cur@, order@[k2] as int),
                        ) by {
                            if k2 == k as int {
                                assert(blank_one(cur@, order@[k2] as int) == cand@);
                            }
                        }
                    }
                },
                SolveOutcome::NoSolution => {
                    proof {
                        assert(completion_of(solution@, cand@));
                        assert(false);
                    }
                },
            }
        }
        k = k + 1;
    }
    proof {
        assert forall|i: int|
            0 <= i < 81 && (#[trigger] cur@[i]) is Fixed implies two_completions(
            blank_one(cur@, i),
        ) by {
            assert(base_view[i] == i as usize);
            assert(base_view.contains(i as usize));
            assert(order@.contains(i as usize));
            let k2 = choose|k2: int| 0 <= k2 < order@.len() && order@[k2] == i as usize;
            assert(cur@[order@[k2] as int] is Fixed);
        }
    }
    cur
}

} // verus!
