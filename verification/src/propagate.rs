//! The constraint propagator: candidate elimination to fixpoint. For every
//! unknown cell the candidate set is reduced to the digits no fixed peer
//! holds; a cell whose set collapses to one digit is fixed at once, and the
//! elimination cascades until nothing more is forced. An empty candidate set
//! (or a pair of conflicting fixed peers) means the board has no completion.

use crate::board::{
    board_wf, cell_digit, cell_mask, has_digit, is_peer, mask_digits, mask_remove, nth_bit,
    peers, Board, Cell,
};
use crate::model::{
    digit_held_by_peer, fixed_kept, lemma_conflict, lemma_empty_mask,
    lemma_fix_single, lemma_narrow, lemma_no_completion_same, lemma_same_completions_refl,
    lemma_same_completions_trans, lemma_unknown_count_update, no_completion, no_conflict,
    propagated, pruned, same_completions, two_or_more, unknown_count,
};
use vstd::prelude::*;

verus! {

/// The normal, non-fatal outcome that a board (or search branch) admits no
/// completion at all.
#[derive(Clone, Copy, Debug, PartialEq, Eq, Structural)]
pub struct Contradiction;

/// Some fixed cell among the first `hi` cells is a peer of `i` and holds `d`.
pub(crate) open spec fn held_by_peer_below(s: Seq<Cell>, i: int, d: int, hi: int) -> bool {
    exists|q: int|
        0 <= q < hi && #[trigger] is_peer(i, q) && s[q] is Fixed && cell_digit(s[q]) == d
}

proof fn lemma_held_step(s: Seq<Cell>, i: int, d: int, j: int)
    requires
        0 <= j,
    ensures
        held_by_peer_below(s, i, d, j + 1) <==> (held_by_peer_below(s, i, d, j) || (is_peer(i, j)
            && s[j] is Fixed && cell_digit(s[j]) == d)),
{
    if held_by_peer_below(s, i, d, j + 1) {
        let q = choose|q: int|
            0 <= q < j + 1 && #[trigger] is_peer(i, q) && s[q] is Fixed && cell_digit(s[q]) == d;
        if q < j {
            assert(held_by_peer_below(s, i, d, j));
        }
    }
    if held_by_peer_below(s, i, d, j) {
        let q = choose|q: int|
            0 <= q < j && #[trigger] is_peer(i, q) && s[q] is Fixed && cell_digit(s[q]) == d;
        assert(0 <= q < j + 1 && is_peer(i, q) && s[q] is Fixed && cell_digit(s[q]) == d);
    }
    if is_peer(i, j) && s[j] is Fixed && cell_digit(s[j]) == d {
        assert(0 <= j < j + 1 && is_peer(i, j) && s[j] is Fixed && cell_digit(s[j]) == d);
    }
}

proof fn lemma_held_all(s: Seq<Cell>, i: int, d: int)
    ensures
        held_by_peer_below(s, i, d, 81) <==> digit_held_by_peer(s, i, d),
{
    if held_by_peer_below(s, i, d, 81) {
        let q = choose|q: int|
            0 <= q < 81 && #[trigger] is_peer(i, q) && s[q] is Fixed && cell_digit(s[q]) == d;
        assert(digit_held_by_peer(s, i, d));
    }
    if digit_held_by_peer(s, i, d) {
        let q = choose|q: int| #[trigger] is_peer(i, q) && s[q] is Fixed && cell_digit(s[q]) == d;
        assert(0 <= q < 81 && is_peer(i, q) && s[q] is Fixed && cell_digit(s[q]) == d);
    }
}

/// Cell `i` has been reconciled with all its fixed peers: a fixed cell
/// conflicts with none of them, an unknown cell's mask excludes all of their
/// digits and is not empty.
pub(crate) open spec fn checked_cell(s: Seq<Cell>, i: int) -> bool {
    match s[i] {
        Cell::Fixed(_) => forall|j: int|
            #[trigger] is_peer(i, j) && s[j] is Fixed ==> cell_digit(s[j]) != cell_digit(s[i]),
        Cell::Candidates(m) => (forall|j: int|
            #[trigger] is_peer(i, j) && s[j] is Fixed ==> !has_digit(m, cell_digit(s[j]))) && (
        exists|d: int| #[trigger] has_digit(m, d)),
    }
}

/// Reduces `b` to the propagation fixpoint, or reports that `b` has no
/// completion. The result keeps every fixed cell of `b` and admits exactly
/// the completions `b` admits.
#[verifier::loop_isolation(false)]
pub fn propagate(b: &Board) -> (r: Result<Board, Contradiction>)
    requires
        b.wf(),
    ensures
        match r {
            Ok(b2) => b2.wf() && propagated(b2@) && same_completions(b2@, b@) && fixed_kept(
                b@,
                b2@,
            ) && unknown_count(b2@) <= unknown_count(b@) && (propagated(b@) ==> b2@ == b@),
            Err(_) => no_completion(b@),
        },
{
    let mut cur = b.duplicate();
    proof {
        lemma_same_completions_refl(b@);
        crate::model::lemma_unknown_count_le(b@, cur@);
    }
    loop
        invariant
            b.wf(),
            cur.wf(),
            same_completions(cur@, b@),
            fixed_kept(b@, cur@),
            unknown_count(cur@) <= unknown_count(b@),
            propagated(b@) ==> cur@ == b@,
        decreases unknown_count(cur@),
    {
        let ghost entry = cur@;
        // Pass 1: reconcile every cell with its fixed peers.
        let mut i: usize = 0;
        while i < 81
            invariant
                b.wf(),
                cur.wf(),
                i <= 81,
                same_completions(cur@, b@),
                fixed_kept(b@, cur@),
                unknown_count(cur@) == unknown_count(entry),
                propagated(b@) ==> cur@ == b@,
                forall|p: int| 0 <= p < i ==> checked_cell(cur@, p),
            decreases 81 - i,
        {
            match cur.get(i) {
                Cell::Fixed(d) => {
                    let mut j: usize = 0;
                    while j < 81
                        invariant
                            cur.wf(),
                            i < 81,
                            j <= 81,
                            cur@[i as int] == Cell::Fixed(d),
                            forall|q: int|
                                0 <= q < j && #[trigger] is_peer(i as int, q)
                                    && cur@[q] is Fixed ==> cell_digit(cur@[q]) != d as int,
                        decreases 81 - j,
                    {
                        if peers(i, j) {
                            if let Cell::Fixed(d2) = cur.get(j) {
                                if d2 == d {
                                    proof {
                                        lemma_conflict(cur@, i as int, j as int);
                                        lemma_no_completion_same(cur@, b@);
                                    }
                                    return Err(Contradiction);
                                }
                            }
                        }
                        j = j + 1;
                    }
                    proof {
                        assert(checked_cell(cur@, i as int));
                    }
                },
                Cell::Candidates(m0) => {
                    let mut m = m0;
                    let mut j: usize = 0;
                    while j < 81
                        invariant
                            cur.wf(),
                            i < 81,
                            j <= 81,
                            m < 0x200,
                            cur@[i as int] == Cell::Candidates(m0),
                            forall|d: int|
                                #[trigger] has_digit(m, d) <==> has_digit(m0, d)
                                    && !held_by_peer_below(cur@, i as int, d, j as int),
                        decreases 81 - j,
                    {
                        let ghost m_before = m;
                        if peers(i, j) {
                            if let Cell::Fixed(d2) = cur.get(j) {
                                m = mask_remove(m, d2);
                            }
                        }
                        proof {
                            assert forall|d: int| #[trigger]
                                has_digit(m, d) <==> has_digit(m0, d) && !held_by_peer_below(
                                cur@,
                                i as int,
                                d,
                                j as int + 1,
                            ) by {
                                lemma_held_step(cur@, i as int, d, j as int);
                            }
                        }
                        j = j + 1;
                    }
                    proof {
                        assert forall|d: int| #[trigger]
                            has_digit(m, d) <==> has_digit(cell_mask(cur@[i as int]), d)
                            && !digit_held_by_peer(cur@, i as int, d) by {
                            lemma_held_all(cur@, i as int, d);
                        }
                        lemma_narrow(cur@, i as int, m);
                    }
                    let ghost prev = cur@;
                    cur.set_cell(i, Cell::Candidates(m));
                    proof {
                        if propagated(b@) {
                            // On a board already at the fixpoint the pruning
                            // removes nothing, so the cell is rewritten with
                            // its old mask.
                            assert forall|d: int| #[trigger]
                                has_digit(m, d) == has_digit(m0, d) by {
                                if digit_held_by_peer(prev, i as int, d) {
                                    let jj = choose|jj: int|
                                        #[trigger] is_peer(i as int, jj) && prev[jj] is Fixed
                                            && cell_digit(prev[jj]) == d;
                                    assert(!has_digit(m0, cell_digit(prev[jj])));
                                }
                            }
                            assert forall|k: u16| k < 9 implies nth_bit(m, k) == nth_bit(
                                m0,
                                k,
                            ) by {
                                assert(has_digit(m, k as int + 1) == has_digit(m0, k as int + 1));
                            }
                            assert(m == m0) by (bit_vector)
                                requires
                                    m < 0x200,
                                    m0 < 0x200,
                                    nth_bit(m, 0) == nth_bit(m0, 0),
                                    nth_bit(m, 1) == nth_bit(m0, 1),
                                    nth_bit(m, 2) == nth_bit(m0, 2),
                                    nth_bit(m, 3) == nth_bit(m0, 3),
                                    nth_bit(m, 4) == nth_bit(m0, 4),
                                    nth_bit(m, 5) == nth_bit(m0, 5),
                                    nth_bit(m, 6) == nth_bit(m0, 6),
                                    nth_bit(m, 7) == nth_bit(m0, 7),
                                    nth_bit(m, 8) == nth_bit(m0, 8),
                            ;
                            assert(cur@ =~= prev);
                        }
                        lemma_same_completions_trans(cur@, prev, b@);
                        lemma_unknown_count_update(prev, i as int, Cell::Candidates(m));
                        assert forall|p: int| 0 <= p < i implies checked_cell(cur@, p) by {
                            assert(checked_cell(prev, p));
                            assert(cur@[p] == prev[p]);
                            assert forall|jj: int| #[trigger]
                                is_peer(p, jj) && cur@[jj] is Fixed implies prev[jj] == cur@[jj] by {
                                if jj == i as int {
                                    assert(cur@[jj] is Candidates);
                                }
                            }
                        }
                    }
                    let digits = mask_digits(m);
                    if digits.len() == 0 {
                        proof {
                            assert forall|d: int| !(#[trigger] has_digit(m, d)) by {
                                if has_digit(m, d) {
                                    assert(digits@.contains(d as u8));
                                }
                            }
                            lemma_empty_mask(cur@, i as int);
                            lemma_no_completion_same(cur@, b@);
                        }
                        return Err(Contradiction);
                    }
                    proof {
                        assert(has_digit(m, digits@[0] as int));
                        assert(checked_cell(cur@, i as int)) by {
                            assert forall|jj: int| #[trigger]
                                is_peer(i as int, jj) && cur@[jj] is Fixed implies !has_digit(
                                m,
                                cell_digit(cur@[jj]),
                            ) by {
                                assert(jj != i as int);
                                assert(prev[jj] == cur@[jj]);
                                assert(digit_held_by_peer(prev, i as int, cell_digit(prev[jj])));
                            }
                        }
                    }
                },
            }
            i = i + 1;
        }
        // Pass 2: look for a naked single.
        let mut single: Option<(usize, u8)> = None;
        let mut k: usize = 0;
        while k < 81 && single.is_none()
            invariant
                cur.wf(),
                k <= 81,
                forall|p: int| 0 <= p < 81 ==> checked_cell(cur@, p),
                single is None ==> forall|p: int|
                    0 <= p < k && (#[trigger] cur@[p]) is Candidates ==> two_or_more(
                        cell_mask(cur@[p]),
                    ),
                match single {
                    Some((ii, d)) => ii < 81 && cur@[ii as int] is Candidates && 1 <= d <= 9 && (
                    forall|d2: int|
                        #[trigger] has_digit(cell_mask(cur@[ii as int]), d2) <==> d2 == d as int),
                    None => true,
                },
            decreases 81 - k,
        {
            if let Cell::Candidates(m) = cur.get(k) {
                let digits = mask_digits(m);
                if digits.len() == 1 {
                    let d = digits[0];
                    proof {
                        assert forall|d2: int| #[trigger]
                            has_digit(m, d2) <==> d2 == d as int by {
                            if has_digit(m, d2) {
                                assert(digits@.contains(d2 as u8));
                                let kk = choose|kk: int|
                                    0 <= kk < digits@.len() && digits@[kk] == d2 as u8;
                                assert(kk == 0);
                            }
                            assert(has_digit(m, digits@[0] as int));
                        }
                    }
                    single = Some((k, d));
                } else {
                    proof {
                        assert(checked_cell(cur@, k as int));
                        let some_d = choose|d: int| #[trigger] has_digit(m, d);
                        assert(digits@.contains(some_d as u8));
                        assert(digits@.len() >= 1);
                        assert(digits@.len() >= 2);
                        assert(has_digit(m, digits@[0] as int) && has_digit(m, digits@[1] as int)
                            && digits@[0] < digits@[1]);
                        assert(two_or_more(m));
                    }
                }
            }
            k = k + 1;
        }
        match single {
            None => {
                proof {
                    assert(no_conflict(cur@)) by {
                        assert forall|x: int, y: int| #[trigger]
                            is_peer(x, y) && cur@[x] is Fixed && cur@[y] is Fixed implies cell_digit(
                            cur@[x],
                        ) != cell_digit(cur@[y]) by {
                            assert(checked_cell(cur@, x));
                        }
                    }
                    assert(pruned(cur@)) by {
                        assert forall|x: int, y: int| #[trigger]
                            is_peer(x, y) && cur@[x] is Candidates
                            && cur@[y] is Fixed implies !has_digit(
                            cell_mask(cur@[x]),
                            cell_digit(cur@[y]),
                        ) by {
                            assert(checked_cell(cur@, x));
                        }
                    }
                    assert(propagated(cur@));
                }
                return Ok(cur);
            },
            Some((ii, d)) => {
                proof {
                    lemma_fix_single(cur@, ii as int, d);
                }
                let ghost prev = cur@;
                cur.set_cell(ii, Cell::Fixed(d));
                proof {
                    if propagated(b@) {
                        // A naked single contradicts the fixpoint, where every
                        // unknown cell keeps at least two candidates.
                        assert(two_or_more(cell_mask(prev[ii as int])));
                        let (d1, d2) = choose|d1: int, d2: int|
                            d1 != d2 && #[trigger] has_digit(cell_mask(prev[ii as int]), d1)
                                && #[trigger] has_digit(cell_mask(prev[ii as int]), d2);
                        assert(false);
                    }
                    lemma_same_completions_trans(cur@, prev, b@);
                    lemma_unknown_count_update(prev, ii as int, Cell::Fixed(d));
                    assert forall|p: int|
                        0 <= p < 81 && (#[trigger] b@[p]) is Fixed implies cur@[p] == b@[p] by {
                        assert(prev[p] == b@[p]);
                        if p == ii as int {
                            assert(prev[p] is Candidates);
                        }
                    }
                }
            },
        }
    }
}

} // verus!
