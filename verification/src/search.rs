//! The search engine: depth-first branching over the most constrained unknown
//! cell, re-propagating after every speculative assignment. One mode stops at
//! the first solution; the other keeps exploring to prove that a solution is
//! unique, stopping as soon as a second one turns up.

use crate::board::{cell_digit, cell_mask, mask_count, mask_digits, Board, Cell};
use crate::model::{
    admits, all_fixed, completion_of, lemma_branch, lemma_no_completion_same, lemma_solved_self,
    lemma_unknown_count_update, no_completion, no_conflict, solved, two_completions, unknown_count,
};
use crate::propagate::propagate;
use crate::rng::{shuffle, Rng};
use vstd::prelude::*;

verus! {

/// The verdict of the uniqueness-checking search.
pub enum SolveOutcome {
    NoSolution,
    Unique(Board),
    Multiple,
}

/// What a full exploration found: no solution, exactly one, or two distinct
/// witnesses (at which point exploring further is pointless).
enum Found {
    Zero,
    One(Board),
    Two(Board, Board),
}

/// Picks the unknown cell with the fewest remaining candidates (ties broken
/// by lowest index), the branching heuristic that keeps the search tree
/// narrow. Returns `None` when every cell is fixed.
pub fn find_branch_cell(b: &Board) -> (r: Option<usize>)
    requires
        b.wf(),
    ensures
        (match r {
            Some(i) => i < 81 && b@[i as int] is Candidates && (forall|j: int|
                0 <= j < 81 && (#[trigger] b@[j]) is Candidates ==> mask_count(
                    cell_mask(b@[i as int]),
                    10,
                ) <= mask_count(cell_mask(b@[j]), 10)) && (forall|j: int|
                0 <= j < i && (#[trigger] b@[j]) is Candidates ==> mask_count(
                    cell_mask(b@[i as int]),
                    10,
                ) < mask_count(cell_mask(b@[j]), 10)),
            None => all_fixed(b@),
        }),
{
    let mut best: Option<usize> = None;
    let mut best_count: usize = 10;
    let mut i: usize = 0;
    while i < 81
        invariant
            b.wf(),
            i <= 81,
            (match best {
                Some(bi) => bi < 81 && b@[bi as int] is Candidates && best_count == mask_count(
                    cell_mask(b@[bi as int]),
                    10,
                ) && (forall|j: int|
                    0 <= j < i && (#[trigger] b@[j]) is Candidates ==> best_count <= mask_count(
                        cell_mask(b@[j]),
                        10,
                    )) && (forall|j: int|
                    0 <= j < bi && (#[trigger] b@[j]) is Candidates ==> best_count < mask_count(
                        cell_mask(b@[j]),
                        10,
                    )),
                None => forall|p: int| 0 <= p < i ==> (#[trigger] b@[p]) is Fixed,
            }),
        decreases 81 - i,
    {
        if let Cell::Candidates(m) = b.get(i) {
            let cnt = mask_digits(m).len();
            if best.is_none() || cnt < best_count {
                best = Some(i);
                best_count = cnt;
            }
        }
        i = i + 1;
    }
    best
}

/// The candidate digits of mask `m`, ascending, or pseudo-randomly reordered
/// when `randomize` is set. Either way the list holds exactly the digits of
/// `m`.
fn candidate_order(m: u16, rng: &mut Rng, randomize: bool) -> (v: Vec<u8>)
    ensures
        forall|k: int|
            0 <= k < v@.len() ==> 1 <= #[trigger] v@[k] <= 9 && crate::board::has_digit(
                m,
                v@[k] as int,
            ),
        forall|d: int| #[trigger] crate::board::has_digit(m, d) ==> v@.contains(d as u8),
{
    let base = mask_digits(m);
    if randomize {
        let ghost base_view = base@;
        let out = shuffle(base, rng);
        proof {
            assert forall|k: int|
                0 <= k < out@.len() implies 1 <= #[trigger] out@[k] <= 9
                && crate::board::has_digit(m, out@[k] as int) by {
                assert(base_view.contains(out@[k]));
                let w = choose|w: int| 0 <= w < base_view.len() && base_view[w] == out@[k];
                assert(1 <= base_view[w] <= 9 && crate::board::has_digit(m, base_view[w] as int));
            }
            assert forall|d: int| #[trigger]
                crate::board::has_digit(m, d) implies out@.contains(d as u8) by {
                assert(base_view.contains(d as u8));
                let w = choose|w: int| 0 <= w < base_view.len() && base_view[w] == d as u8;
                assert(out@.contains(base_view[w]));
            }
        }
        out
    } else {
        base
    }
}

/// Depth-first search for one completion of a propagated board.
#[verifier::loop_isolation(false)]
fn search_first(b: Board, rng: &mut Rng, randomize: bool) -> (r: Option<Board>)
    requires
        b.wf(),
        no_conflict(b@),
    ensures
        (match r {
            Some(s) => s.wf() && completion_of(s@, b@),
            None => no_completion(b@),
        }),
    decreases unknown_count(b@),
{
    match find_branch_cell(&b) {
        None => {
            proof {
                lemma_solved_self(b@);
            }
            Some(b)
        },
        Some(i) => {
            let m = match b.get(i) {
                Cell::Candidates(mm) => mm,
                Cell::Fixed(_) => vstd::pervasive::unreached(),
            };
            let digits = candidate_order(m, rng, randomize);
            let mut result: Option<Board> = None;
            let mut k: usize = 0;
            while k < digits.len() && result.is_none()
                invariant
                    k <= digits@.len(),
                    (match result {
                        Some(s) => s.wf() && completion_of(s@, b@),
                        None => forall|sol: Seq<Cell>, k2: int|
                            #![trigger completion_of(sol, b@), digits@[k2]]
                            0 <= k2 < k && completion_of(sol, b@) ==> cell_digit(sol[i as int])
                                != digits@[k2] as int,
                    }),
                decreases digits@.len() - k,
            {
                let d = digits[k];
                let mut b2 = b.duplicate();
                b2.set_cell(i, Cell::Fixed(d));
                proof {
                    lemma_branch(b@, i as int, d);
                }
                let branch_result = match propagate(&b2) {
                    Err(_) => None,
                    Ok(b3) => {
                        proof {
                            lemma_unknown_count_update(b@, i as int, Cell::Fixed(d));
                        }
                        match search_first(b3, rng, randomize) {
                            Some(s) => {
                                proof {
                                    assert(completion_of(s@, b2@));
                                    assert(completion_of(s@, b@));
                                }
                                Some(s)
                            },
                            None => {
                                proof {
                                    lemma_no_completion_same(b3@, b2@);
                                }
                                None
                            },
                        }
                    },
                };
                match branch_result {
                    Some(s) => {
                        result = Some(s);
                    },
                    None => {
                        proof {
                            assert forall|sol: Seq<Cell>, k2: int|
                                #![trigger completion_of(sol, b@), digits@[k2]]
                                0 <= k2 < k + 1 && completion_of(sol, b@) implies cell_digit(
                                sol[i as int],
                            ) != digits@[k2] as int by {
                                if k2 == k as int && cell_digit(sol[i as int]) == d as int {
                                    assert(admits(b@[i as int], sol[i as int]));
                                    assert(sol[i as int] == Cell::Fixed(d));
                                    assert(completion_of(sol, b2@));
                                }
                            }
                        }
                    },
                }
                k = k + 1;
            }
            if result.is_none() {
                proof {
                    assert forall|sol: Seq<Cell>| !(#[trigger] completion_of(sol, b@)) by {
                        if completion_of(sol, b@) {
                            assert(admits(b@[i as int], sol[i as int]));
                            let dd = cell_digit(sol[i as int]);
                            assert(crate::board::has_digit(m, dd));
                            assert(digits@.contains(dd as u8));
                            let k2 = choose|k2: int|
                                0 <= k2 < digits@.len() && digits@[k2] == dd as u8;
                            assert(cell_digit(sol[i as int]) != digits@[k2] as int);
                        }
                    }
                }
            }
            result
        },
    }
}

/// Finds a completion of `b`, or proves there is none. Candidates are tried
/// in ascending order; the first full solution is returned at once.
pub fn solve_first(b: &Board) -> (r: Option<Board>)
    requires
        b.wf(),
    ensures
        (match r {
            Some(s) => s.wf() && completion_of(s@, b@),
            None => no_completion(b@),
        }),
{
    let mut rng = Rng::new(0);
    solve_first_inner(b, &mut rng, false)
}

/// As `solve_first`, but the candidate order of every branched cell is drawn
/// from `rng`, so repeated calls explore solutions in different orders.
pub(crate) fn solve_first_random(b: &Board, rng: &mut Rng) -> (r: Option<Board>)
    requires
        b.wf(),
    ensures
        (match r {
            Some(s) => s.wf() && completion_of(s@, b@),
            None => no_completion(b@),
        }),
{
    solve_first_inner(b, rng, true)
}

fn solve_first_inner(b: &Board, rng: &mut Rng, randomize: bool) -> (r: Option<Board>)
    requires
        b.wf(),
    ensures
        (match r {
            Some(s) => s.wf() && completion_of(s@, b@),
            None => no_completion(b@),
        }),
{
    match propagate(b) {
        Err(_) => None,
        Ok(b2) => match search_first(b2, rng, randomize) {
            Some(s) => {
                proof {
                    assert(completion_of(s@, b@));
                }
                Some(s)
            },
            None => {
                proof {
                    lemma_no_completion_same(b2@, b@);
                }
                None
            },
        },
    }
}

/// Exhaustive search that distinguishes zero, one and at least two
/// completions. Candidates are tried in ascending order, and the search stops
/// as soon as two distinct solutions are in hand.
#[verifier::loop_isolation(false)]
fn search_all(b: Board) -> (r: Found)
    requires
        b.wf(),
        no_conflict(b@),
    ensures
        (match r {
            Found::Zero => no_completion(b@),
            Found::One(s) => s.wf() && completion_of(s@, b@) && (forall|sol: Seq<Cell>|
                #[trigger] completion_of(sol, b@) ==> sol == s@),
            Found::Two(s1, s2) => s1.wf() && s2.wf() && completion_of(s1@, b@) && completion_of(
                s2@,
                b@,
            ) && s1@ != s2@,
        }),
    decreases unknown_count(b@),
{
    match find_branch_cell(&b) {
        None => {
            proof {
                lemma_solved_self(b@);
            }
            Found::One(b)
        },
        Some(i) => {
            let m = match b.get(i) {
                Cell::Candidates(mm) => mm,
                Cell::Fixed(_) => vstd::pervasive::unreached(),
            };
            let digits = mask_digits(m);
            let mut acc: Found = Found::Zero;
            let mut found_two: bool = false;
            let mut k: usize = 0;
            while k < digits.len() && !found_two
                invariant
                    k <= digits@.len(),
                    found_two == (acc is Two),
                    (match acc {
                        Found::Zero => forall|sol: Seq<Cell>, k2: int|
                            #![trigger completion_of(sol, b@), digits@[k2]]
                            0 <= k2 < k && completion_of(sol, b@) ==> cell_digit(sol[i as int])
                                != digits@[k2] as int,
                        Found::One(f) => f.wf() && completion_of(f@, b@) && (exists|kf: int|
                            0 <= kf < k && cell_digit(f@[i as int]) == #[trigger] digits@[kf] as int)
                            && (forall|sol: Seq<Cell>, k2: int|
                            #![trigger completion_of(sol, b@), digits@[k2]]
                            0 <= k2 < k && completion_of(sol, b@) && cell_digit(sol[i as int])
                                == digits@[k2] as int ==> sol == f@),
                        Found::Two(s1, s2) => s1.wf() && s2.wf() && completion_of(s1@, b@)
                            && completion_of(s2@, b@) && s1@ != s2@,
                    }),
                decreases digits@.len() - k,
            {
                let d = digits[k];
                let mut b2 = b.duplicate();
                b2.set_cell(i, Cell::Fixed(d));
                proof {
                    lemma_branch(b@, i as int, d);
                }
                let branch_result = match propagate(&b2) {
                    Err(_) => Found::Zero,
                    Ok(b3) => {
                        proof {
                            lemma_unknown_count_update(b@, i as int, Cell::Fixed(d));
                        }
                        match search_all(b3) {
                            Found::Zero => {
                                proof {
                                    lemma_no_completion_same(b3@, b2@);
                                }
                                Found::Zero
                            },
                            Found::One(s) => {
                                proof {
                                    assert(completion_of(s@, b2@));
                                    assert(completion_of(s@, b@) && s@[i as int] == Cell::Fixed(d));
                                    assert forall|sol: Seq<Cell>| #[trigger]
                                        completion_of(sol, b2@) implies sol == s@ by {
                                        assert(completion_of(sol, b3@));
                                    }
                                }
                                Found::One(s)
                            },
                            Found::Two(x, y) => {
                                proof {
                                    assert(completion_of(x@, b2@) && completion_of(y@, b2@));
                                    assert(completion_of(x@, b@) && completion_of(y@, b@));
                                }
                                Found::Two(x, y)
                            },
                        }
                    },
                };
                acc =
                match (acc, branch_result) {
                    (Found::Two(s1, s2), _) => Found::Two(s1, s2),
                    (old_acc, Found::Two(x, y)) => {
                        found_two = true;
                        Found::Two(x, y)
                    },
                    (old_acc, Found::Zero) => {
                        proof {
                            assert forall|sol: Seq<Cell>, k2: int|
                                #![trigger completion_of(sol, b@), digits@[k2]]
                                0 <= k2 < k + 1 && completion_of(sol, b@) && cell_digit(
                                sol[i as int],
                            ) == digits@[k2] as int implies k2 < k by {
                                if k2 == k as int {
                                    assert(admits(b@[i as int], sol[i as int]));
                                    assert(sol[i as int] == Cell::Fixed(d));
                                    assert(completion_of(sol, b2@));
                                    assert(no_completion(b2@));
                                }
                            }
                        }
                        old_acc
                    },
                    (Found::Zero, Found::One(s)) => {
                        proof {
                            assert(cell_digit(s@[i as int]) == digits@[k as int] as int);
                            assert forall|sol: Seq<Cell>, k2: int|
                                #![trigger completion_of(sol, b@), digits@[k2]]
                                0 <= k2 < k + 1 && completion_of(sol, b@) && cell_digit(
                                sol[i as int],
                            ) == digits@[k2] as int implies sol == s@ by {
                                if k2 < k as int {
                                    assert(cell_digit(sol[i as int]) != digits@[k2] as int);
                                } else {
                                    assert(admits(b@[i as int], sol[i as int]));
                                    assert(sol[i as int] == Cell::Fixed(d));
                                    assert(completion_of(sol, b2@));
                                }
                            }
                        }
                        Found::One(s)
                    },
                    (Found::One(f), Found::One(s)) => {
                        proof {
                            let kf = choose|kf: int|
                                0 <= kf < k && cell_digit(f@[i as int]) == #[trigger] digits@[kf] as int;
                            assert(digits@[kf] < digits@[k as int]);
                            assert(cell_digit(f@[i as int]) != cell_digit(s@[i as int]));
                            assert(f@[i as int] != s@[i as int]);
                            assert(f@ != s@);
                        }
                        found_two = true;
                        Found::Two(f, s)
                    },
                };
                k = k + 1;
            }
            proof {
                match &acc {
                    Found::Zero => {
                        assert forall|sol: Seq<Cell>| !(#[trigger] completion_of(sol, b@)) by {
                            if completion_of(sol, b@) {
                                assert(admits(b@[i as int], sol[i as int]));
                                let dd = cell_digit(sol[i as int]);
                                assert(crate::board::has_digit(m, dd));
                                assert(digits@.contains(dd as u8));
                                let k2 = choose|k2: int|
                                    0 <= k2 < digits@.len() && digits@[k2] == dd as u8;
                                assert(cell_digit(sol[i as int]) != digits@[k2] as int);
                            }
                        }
                    },
                    Found::One(f) => {
                        assert forall|sol: Seq<Cell>| #[trigger] completion_of(sol, b@) implies sol
                            == f@ by {
                            assert(admits(b@[i as int], sol[i as int]));
                            let dd = cell_digit(sol[i as int]);
                            assert(crate::board::has_digit(m, dd));
                            assert(digits@.contains(dd as u8));
                            let k2 = choose|k2: int|
                                0 <= k2 < digits@.len() && digits@[k2] == dd as u8;
                            assert(cell_digit(sol[i as int]) == digits@[k2] as int);
                        }
                    },
                    Found::Two(_, _) => {},
                }
            }
            acc
        },
    }
}

/// Decides whether `b` has no completion, exactly one (returned), or more
/// than one. A solved board is its own unique completion; a board that two
/// distinct solved grids complete is always reported `Multiple`.
pub fn solve_checking_uniqueness(b: &Board) -> (r: SolveOutcome)
    requires
        b.wf(),
    ensures
        r is NoSolution ==> no_completion(b@),
        (match r {
            SolveOutcome::Unique(s) => s.wf() && completion_of(s@, b@) && (forall|sol: Seq<Cell>|
                #[trigger] completion_of(sol, b@) ==> sol == s@),
            _ => true,
        }),
        r is Multiple ==> two_completions(b@),
        two_completions(b@) ==> r is Multiple,
        solved(b@) ==> (match r {
            SolveOutcome::Unique(s) => s@ == b@,
            _ => false,
        }),
{
    match propagate(b) {
        Err(_) => {
            proof {
                lemma_not_two_without_one(b@);
                if solved(b@) {
                    lemma_solved_self(b@);
                    assert(completion_of(b@, b@));
                }
            }
            SolveOutcome::NoSolution
        },
        Ok(b2) => match search_all(b2) {
            Found::Zero => {
                proof {
                    lemma_no_completion_same(b2@, b@);
                    lemma_not_two_without_one(b@);
                    if solved(b@) {
                        lemma_solved_self(b@);
                        assert(completion_of(b@, b@));
                    }
                }
                SolveOutcome::NoSolution
            },
            Found::One(s) => {
                proof {
                    assert(completion_of(s@, b@));
                    assert forall|sol: Seq<Cell>| #[trigger] completion_of(sol, b@) implies sol
                        == s@ by {
                        assert(completion_of(sol, b2@));
                    }
                    if two_completions(b@) {
                        let (s1, s2) = choose|s1: Seq<Cell>, s2: Seq<Cell>|
                            #[trigger] completion_of(s1, b@) && #[trigger] completion_of(s2, b@)
                                && s1 != s2;
                        assert(s1 == s@ && s2 == s@);
                    }
                    if solved(b@) {
                        lemma_solved_self(b@);
                        assert(completion_of(b@, b@));
                        assert(s@ == b@);
                    }
                }
                SolveOutcome::Unique(s)
            },
            Found::Two(x, y) => {
                proof {
                    assert(completion_of(x@, b@) && completion_of(y@, b@));
                    assert(two_completions(b@));
                    if solved(b@) {
                        lemma_solved_self(b@);
                        assert(x@ == b@ && y@ == b@);
                    }
                }
                SolveOutcome::Multiple
            },
        },
    }
}

/// A board with no completion at all cannot have two of them.
proof fn lemma_not_two_without_one(b: Seq<Cell>)
    requires
        no_completion(b),
    ensures
        !two_completions(b),
{
    if two_completions(b) {
        let (s1, s2) = choose|s1: Seq<Cell>, s2: Seq<Cell>|
            #[trigger] completion_of(s1, b) && #[trigger] completion_of(s2, b) && s1 != s2;
    }
}

} // verus!
