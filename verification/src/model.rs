//! The mathematical model of solving: what a solved grid is, which solved
//! grids complete a given board, and how editing a board changes its set of
//! completions. Every engine operation is specified against these notions.

use crate::board::{
    board_wf, cell_digit, cell_mask, cell_wf, has_digit, is_peer, peers, Board, Cell, ALL_DIGITS,
};
use vstd::prelude::*;

verus! {

impl Board {
    /// Checks whether this board is a solved grid: every cell fixed, no two
    /// peers holding the same digit.
    #[verifier::loop_isolation(false)]
    pub fn is_solved(&self) -> (r: bool)
        requires
            self.wf(),
        ensures
            r == solved(self@),
    {
        let mut i: usize = 0;
        while i < 81
            invariant
                i <= 81,
                forall|p: int| 0 <= p < i ==> (#[trigger] self@[p]) is Fixed,
                forall|p: int, q: int|
                    0 <= p < i && #[trigger] is_peer(p, q) && self@[q] is Fixed ==> cell_digit(
                        self@[p],
                    ) != cell_digit(self@[q]),
            decreases 81 - i,
        {
            match self.get(i) {
                Cell::Candidates(_) => {
                    proof {
                        assert(!all_fixed(self@)) by {
                            if all_fixed(self@) {
                                assert(self@[i as int] is Fixed);
                            }
                        }
                    }
                    return false;
                },
                Cell::Fixed(d) => {
                    let mut j: usize = 0;
                    while j < 81
                        invariant
                            j <= 81,
                            self@[i as int] == Cell::Fixed(d),
                            forall|q: int|
                                0 <= q < j && #[trigger] is_peer(i as int, q)
                                    && self@[q] is Fixed ==> cell_digit(self@[q]) != d as int,
                        decreases 81 - j,
                    {
                        if peers(i, j) {
                            if let Cell::Fixed(d2) = self.get(j) {
                                if d2 == d {
                                    proof {
                                        assert(!no_conflict(self@)) by {
                                            if no_conflict(self@) {
                                                assert(is_peer(i as int, j as int));
                                            }
                                        }
                                    }
                                    return false;
                                }
                            }
                        }
                        j = j + 1;
                    }
                },
            }
            i = i + 1;
        }
        proof {
            assert(no_conflict(self@)) by {
                assert forall|p: int, q: int|
                    #[trigger] is_peer(p, q) && self@[p] is Fixed
                    && self@[q] is Fixed implies cell_digit(self@[p]) != cell_digit(self@[q]) by {
                    assert(0 <= p < 81);
                }
            }
        }
        true
    }
}

pub open spec fn all_fixed(s: Seq<Cell>) -> bool {
    forall|i: int| 0 <= i < 81 ==> (#[trigger] s[i]) is Fixed
}

/// No two peer cells hold the same fixed digit.
pub open spec fn no_conflict(s: Seq<Cell>) -> bool {
    forall|i: int, j: int|
        #[trigger] is_peer(i, j) && s[i] is Fixed && s[j] is Fixed ==> cell_digit(s[i])
            != cell_digit(s[j])
}

/// A terminal board: every cell fixed, no peer conflict anywhere.
pub open spec fn solved(s: Seq<Cell>) -> bool {
    board_wf(s) && all_fixed(s) && no_conflict(s)
}

/// The constraint of cell `c` admits the solved cell `sc`.
pub open spec fn admits(c: Cell, sc: Cell) -> bool {
    match c {
        Cell::Fixed(_) => sc == c,
        Cell::Candidates(m) => sc is Fixed && has_digit(m, cell_digit(sc)),
    }
}

/// `sol` is a solved grid compatible with every cell constraint of `b`.
pub open spec fn completion_of(sol: Seq<Cell>, b: Seq<Cell>) -> bool {
    solved(sol) && b.len() == 81 && (forall|i: int|
        #![trigger b[i]]
        #![trigger sol[i]]
        0 <= i < 81 ==> admits(b[i], sol[i]))
}

pub open spec fn no_completion(b: Seq<Cell>) -> bool {
    forall|sol: Seq<Cell>| !(#[trigger] completion_of(sol, b))
}

/// Two boards admit exactly the same solved grids.
pub open spec fn same_completions(a: Seq<Cell>, b: Seq<Cell>) -> bool {
    (forall|sol: Seq<Cell>| #[trigger] completion_of(sol, a) ==> completion_of(sol, b))
        && (forall|sol: Seq<Cell>| #[trigger] completion_of(sol, b) ==> completion_of(sol, a))
}

/// Every cell fixed in `a` is kept, unchanged, in `b`.
pub open spec fn fixed_kept(a: Seq<Cell>, b: Seq<Cell>) -> bool {
    forall|i: int| 0 <= i < 81 && (#[trigger] a[i]) is Fixed ==> b[i] == a[i]
}

pub proof fn lemma_same_completions_refl(a: Seq<Cell>)
    ensures
        same_completions(a, a),
{
}

pub proof fn lemma_same_completions_trans(a: Seq<Cell>, b: Seq<Cell>, c: Seq<Cell>)
    requires
        same_completions(a, b),
        same_completions(b, c),
    ensures
        same_completions(a, c),
{
    assert forall|sol: Seq<Cell>| #[trigger] completion_of(sol, a) implies completion_of(
        sol,
        c,
    ) by {
        assert(completion_of(sol, b));
    }
    assert forall|sol: Seq<Cell>| #[trigger] completion_of(sol, c) implies completion_of(
        sol,
        a,
    ) by {
        assert(completion_of(sol, b));
    }
}

pub proof fn lemma_no_completion_same(a: Seq<Cell>, b: Seq<Cell>)
    requires
        same_completions(a, b),
        no_completion(a),
    ensures
        no_completion(b),
{
    assert forall|sol: Seq<Cell>| !(#[trigger] completion_of(sol, b)) by {
        if completion_of(sol, b) {
            assert(completion_of(sol, a));
        }
    }
}

pub open spec fn two_completions(b: Seq<Cell>) -> bool {
    exists|s1: Seq<Cell>, s2: Seq<Cell>|
        #[trigger] completion_of(s1, b) && #[trigger] completion_of(s2, b) && s1 != s2
}

/// Some fixed peer of cell `i` holds digit `d`.
pub open spec fn digit_held_by_peer(s: Seq<Cell>, i: int, d: int) -> bool {
    exists|j: int| #[trigger] is_peer(i, j) && s[j] is Fixed && cell_digit(s[j]) == d
}

/// No unknown cell keeps a candidate that a fixed peer already holds.
pub open spec fn pruned(s: Seq<Cell>) -> bool {
    forall|i: int, j: int|
        #[trigger] is_peer(i, j) && s[i] is Candidates && s[j] is Fixed ==> !has_digit(
            cell_mask(s[i]),
            cell_digit(s[j]),
        )
}

pub open spec fn two_or_more(m: u16) -> bool {
    exists|d1: int, d2: int|
        d1 != d2 && #[trigger] has_digit(m, d1) && #[trigger] has_digit(m, d2)
}

/// A board at the propagator's fixpoint: consistent, fully pruned, and with
/// every remaining unknown cell still genuinely open.
pub open spec fn propagated(s: Seq<Cell>) -> bool {
    board_wf(s) && no_conflict(s) && pruned(s) && (forall|i: int|
        0 <= i < 81 && (#[trigger] s[i]) is Candidates ==> two_or_more(cell_mask(s[i])))
}

// ------------------------------------------------------------------
// Counting unknown cells (the search's termination measure).
// ------------------------------------------------------------------

pub open spec fn unknown_count(s: Seq<Cell>) -> nat
    decreases s.len(),
{
    if s.len() == 0 {
        0
    } else {
        unknown_count(s.drop_last()) + (if s.last() is Candidates {
            1nat
        } else {
            0nat
        })
    }
}

pub proof fn lemma_unknown_count_update(s: Seq<Cell>, i: int, c: Cell)
    requires
        0 <= i < s.len(),
    ensures
        unknown_count(s.update(i, c)) + (if s[i] is Candidates {
            1nat
        } else {
            0nat
        }) == unknown_count(s) + (if c is Candidates {
            1nat
        } else {
            0nat
        }),
    decreases s.len(),
{
    let t = s.update(i, c);
    if i == s.len() - 1 {
        assert(t.drop_last() =~= s.drop_last());
    } else {
        assert(t.drop_last() =~= s.drop_last().update(i, c));
        lemma_unknown_count_update(s.drop_last(), i, c);
    }
}

pub proof fn lemma_unknown_count_le(a: Seq<Cell>, b: Seq<Cell>)
    requires
        a.len() == b.len(),
        forall|i: int| 0 <= i < a.len() && (#[trigger] a[i]) is Fixed ==> b[i] is Fixed,
    ensures
        unknown_count(b) <= unknown_count(a),
    decreases a.len(),
{
    if a.len() > 0 {
        assert forall|i: int|
            0 <= i < a.drop_last().len() && (#[trigger] a.drop_last()[i]) is Fixed implies b
            .drop_last()[i] is Fixed by {
            assert(a[i] is Fixed);
        }
        lemma_unknown_count_le(a.drop_last(), b.drop_last());
    }
}

// ------------------------------------------------------------------
// How edits change the set of completions.
// ------------------------------------------------------------------

/// Fixing a candidate digit keeps exactly the completions that use it there.
pub proof fn lemma_branch(s: Seq<Cell>, i: int, d: u8)
    requires
        board_wf(s),
        0 <= i < 81,
        s[i] is Candidates,
        1 <= d <= 9,
        has_digit(cell_mask(s[i]), d as int),
    ensures
        forall|sol: Seq<Cell>|
            #[trigger] completion_of(sol, s.update(i, Cell::Fixed(d))) <==> completion_of(sol, s)
                && sol[i] == Cell::Fixed(d),
{
    let t = s.update(i, Cell::Fixed(d));
    assert forall|sol: Seq<Cell>| #[trigger]
        completion_of(sol, t) implies completion_of(sol, s) && sol[i] == Cell::Fixed(d) by {
        assert(admits(t[i], sol[i]));
        assert forall|j: int| 0 <= j < 81 implies admits(#[trigger] s[j], sol[j]) by {
            if j != i {
                assert(t[j] == s[j]);
                assert(admits(t[j], sol[j]));
            } else {
                assert(sol[i] == Cell::Fixed(d));
            }
        }
    }
    assert forall|sol: Seq<Cell>|
        completion_of(sol, s) && sol[i] == Cell::Fixed(d) implies #[trigger] completion_of(
        sol,
        t,
    ) by {
        assert forall|j: int| 0 <= j < 81 implies admits(#[trigger] t[j], sol[j]) by {
            if j != i {
                assert(t[j] == s[j]);
                assert(admits(s[j], sol[j]));
            }
        }
    }
}

/// Removing exactly the candidates that fixed peers already hold does not
/// change the set of completions.
pub proof fn lemma_narrow(s: Seq<Cell>, i: int, m2: u16)
    requires
        board_wf(s),
        0 <= i < 81,
        s[i] is Candidates,
        forall|d: int|
            #[trigger] has_digit(m2, d) <==> has_digit(cell_mask(s[i]), d) && !digit_held_by_peer(
                s,
                i,
                d,
            ),
    ensures
        same_completions(s.update(i, Cell::Candidates(m2)), s),
{
    let t = s.update(i, Cell::Candidates(m2));
    assert forall|sol: Seq<Cell>| #[trigger] completion_of(sol, t) implies completion_of(
        sol,
        s,
    ) by {
        assert(admits(t[i], sol[i]));
        assert forall|j: int| 0 <= j < 81 implies admits(#[trigger] s[j], sol[j]) by {
            if j != i {
                assert(t[j] == s[j]);
                assert(admits(t[j], sol[j]));
            } else {
                assert(has_digit(m2, cell_digit(sol[i])));
            }
        }
    }
    assert forall|sol: Seq<Cell>| #[trigger] completion_of(sol, s) implies completion_of(
        sol,
        t,
    ) by {
        assert(admits(s[i], sol[i]));
        let dd = cell_digit(sol[i]);
        assert(has_digit(cell_mask(s[i]), dd));
        assert(!digit_held_by_peer(s, i, dd)) by {
            if digit_held_by_peer(s, i, dd) {
                let j = choose|j: int|
                    #[trigger] is_peer(i, j) && s[j] is Fixed && cell_digit(s[j]) == dd;
                assert(admits(s[j], sol[j]));
                assert(sol[j] == s[j]);
                assert(is_peer(i, j) && sol[i] is Fixed && sol[j] is Fixed);
                assert(cell_digit(sol[i]) != cell_digit(sol[j]));
            }
        }
        assert(has_digit(m2, dd));
        assert forall|j: int| 0 <= j < 81 implies admits(#[trigger] t[j], sol[j]) by {
            if j != i {
                assert(t[j] == s[j]);
                assert(admits(s[j], sol[j]));
            }
        }
    }
}

/// Fixing a cell whose mask has collapsed to a single digit does not change
/// the set of completions.
pub proof fn lemma_fix_single(s: Seq<Cell>, i: int, d: u8)
    requires
        board_wf(s),
        0 <= i < 81,
        s[i] is Candidates,
        1 <= d <= 9,
        forall|d2: int| #[trigger] has_digit(cell_mask(s[i]), d2) <==> d2 == d as int,
    ensures
        same_completions(s.update(i, Cell::Fixed(d)), s),
{
    lemma_branch(s, i, d);
    let t = s.update(i, Cell::Fixed(d));
    assert forall|sol: Seq<Cell>| #[trigger] completion_of(sol, s) implies completion_of(
        sol,
        t,
    ) by {
        assert(admits(s[i], sol[i]));
        let dd = cell_digit(sol[i]);
        assert(has_digit(cell_mask(s[i]), dd));
        assert(dd == d as int);
        assert(sol[i] is Fixed);
        assert(sol[i] == Cell::Fixed(d));
    }
}

/// An unknown cell with an empty candidate set admits no completion.
pub proof fn lemma_empty_mask(s: Seq<Cell>, i: int)
    requires
        s.len() == 81,
        0 <= i < 81,
        s[i] is Candidates,
        forall|d: int| !(#[trigger] has_digit(cell_mask(s[i]), d)),
    ensures
        no_completion(s),
{
    assert forall|sol: Seq<Cell>| !(#[trigger] completion_of(sol, s)) by {
        if completion_of(sol, s) {
            assert(admits(s[i], sol[i]));
            assert(has_digit(cell_mask(s[i]), cell_digit(sol[i])));
        }
    }
}

/// Two fixed peers holding the same digit admit no completion.
pub proof fn lemma_conflict(s: Seq<Cell>, i: int, j: int)
    requires
        s.len() == 81,
        is_peer(i, j),
        s[i] is Fixed,
        s[j] is Fixed,
        cell_digit(s[i]) == cell_digit(s[j]),
    ensures
        no_completion(s),
{
    assert forall|sol: Seq<Cell>| !(#[trigger] completion_of(sol, s)) by {
        if completion_of(sol, s) {
            assert(admits(s[i], sol[i]));
            assert(admits(s[j], sol[j]));
            assert(sol[i] == s[i] && sol[j] == s[j]);
            assert(cell_digit(sol[i]) != cell_digit(sol[j]));
        }
    }
}

/// A solved board is its own completion, and its only one.
pub proof fn lemma_solved_self(s: Seq<Cell>)
    requires
        solved(s),
    ensures
        completion_of(s, s),
        forall|sol: Seq<Cell>| #[trigger] completion_of(sol, s) ==> sol == s,
{
    assert forall|i: int| 0 <= i < 81 implies admits(#[trigger] s[i], s[i]) by {
        assert(s[i] is Fixed);
    }
    assert(completion_of(s, s));
    assert forall|sol: Seq<Cell>| #[trigger] completion_of(sol, s) implies sol == s by {
        assert forall|i: int| 0 <= i < 81 implies #[trigger] sol[i] == s[i] by {
            assert(admits(s[i], sol[i]));
            assert(s[i] is Fixed);
        }
        assert(sol =~= s);
    }
}

// ------------------------------------------------------------------
// Blanking cells back to fully unknown (the generator's move).
// ------------------------------------------------------------------

pub open spec fn blank_one(s: Seq<Cell>, i: int) -> Seq<Cell> {
    s.update(i, Cell::Candidates(ALL_DIGITS))
}

/// `t` is `s` with some cells blanked back to fully unknown.
pub open spec fn relaxation_of(t: Seq<Cell>, s: Seq<Cell>) -> bool {
    t.len() == 81 && s.len() == 81 && (forall|i: int|
        0 <= i < 81 ==> (#[trigger] t[i]) == s[i] || t[i] == Cell::Candidates(ALL_DIGITS))
}

pub proof fn lemma_all_digits(d: int)
    requires
        1 <= d <= 9,
    ensures
        has_digit(ALL_DIGITS, d),
{
    let k = (d - 1) as u16;
    assert((0x1ffu16 >> k) & 1 == 1) by (bit_vector)
        requires
            k < 9,
    ;
}

/// Blanking cells only enlarges the set of completions.
pub proof fn lemma_relaxation_completion(t: Seq<Cell>, s: Seq<Cell>, sol: Seq<Cell>)
    requires
        relaxation_of(t, s),
        completion_of(sol, s),
    ensures
        completion_of(sol, t),
{
    assert forall|i: int| 0 <= i < 81 implies admits(#[trigger] t[i], sol[i]) by {
        assert(admits(s[i], sol[i]));
        if t[i] != s[i] {
            assert(t[i] == Cell::Candidates(ALL_DIGITS));
            assert(sol[i] is Fixed);
            assert(cell_wf(sol[i]));
            lemma_all_digits(cell_digit(sol[i]));
        }
    }
}

pub proof fn lemma_relaxation_two(t: Seq<Cell>, s: Seq<Cell>)
    requires
        relaxation_of(t, s),
        two_completions(s),
    ensures
        two_completions(t),
{
    let (s1, s2) = choose|s1: Seq<Cell>, s2: Seq<Cell>|
        #[trigger] completion_of(s1, s) && #[trigger] completion_of(s2, s) && s1 != s2;
    lemma_relaxation_completion(t, s, s1);
    lemma_relaxation_completion(t, s, s2);
}

} // verus!
